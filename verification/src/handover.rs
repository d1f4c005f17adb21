//! What one machine hands another: its courier's key and the addresses it
//! reads for.

use crate::compose::{add_line, cat2, cat3, join_from};
use crate::fail::{refusal, refused, Fail, FailView};
use crate::number::{decimal, decimal_of};
use crate::report::{Report, ReportView};
use crate::routes::{abridged, address, is_address, is_hex, trim_to};
use crate::text::{
    after_word, chomp, chomped, contains, first_word, has_part, has_prefix, is_space, joined,
    lemma_first_word, lemma_lines_have_no_line_feed, lemma_lines_unlines,
    lemma_pieces_hold_nothing_new, lemma_trim_none, lemma_trim_twice, lines, slices, spaceless,
    split_lines, split_words, starts_with, text_opt, texts, trim, trimmed, unlines,
    words,
};
use vstd::prelude::*;

verus! {

/// The two facts a handover carries, and each side of a direct link needs one
/// of them.
///
/// A depot uses both together: the key, to let that courier connect, and the
/// addresses, to know what it may collect. A peer hands nothing back, so
/// `route add` reads the addresses and ignores the key while `authorize`
/// reads the key and ignores them, on two different machines.
#[derive(Debug)]
pub struct Handover {
    pub key: String,
    /// The comment on the key line, which is the machine that minted it.
    pub label: String,
    pub addresses: Vec<String>,
}

#[verifier::ext_equal]
pub struct HandoverView {
    pub key: Seq<char>,
    pub label: Seq<char>,
    pub addresses: Seq<Seq<char>>,
}

impl View for Handover {
    type V = HandoverView;

    open spec fn view(&self) -> HandoverView {
        HandoverView { key: self.key@, label: self.label@, addresses: texts(self.addresses@) }
    }
}

pub open spec fn handover_result(r: Result<Handover, Fail>) -> Result<HandoverView, FailView> {
    match r {
        Ok(h) => Ok(h@),
        Err(f) => Err(f@),
    }
}

/// A public key as a line: its type, the key itself, and a comment.
pub open spec fn is_key(l: Seq<char>) -> bool {
    let w = words(l);
    &&& w.len() >= 2
    &&& starts_with(w[0], "ssh-"@) || starts_with(w[0], "ecdsa-"@) || starts_with(w[0], "sk-"@)
}

/// The comment of a key's line.
pub open spec fn comment(l: Seq<char>) -> Seq<char> {
    joined(words(l).skip(2), " "@)
}

/// What has been read of a handover so far.
#[verifier::ext_equal]
pub struct Gathered {
    pub key: Option<Seq<char>>,
    pub addresses: Seq<Seq<char>>,
}

/// What the lines of a handover carry: the first key and every address, or
/// the first line that is neither. Blank lines and comments say nothing.
pub open spec fn gathered(ls: Seq<Seq<char>>, name: Seq<char>) -> Result<Gathered, FailView>
    decreases ls.len(),
{
    if ls.len() == 0 {
        Ok(Gathered { key: None, addresses: Seq::empty() })
    } else {
        let l = trim(ls.last());
        match gathered(ls.drop_last(), name) {
            Err(f) => Err(f),
            Ok(g) => if l.len() == 0 || l[0] == '#' {
                Ok(g)
            } else if address(l) {
                Ok(Gathered { key: g.key, addresses: g.addresses.push(l) })
            } else if is_key(l) {
                Ok(
                    Gathered {
                        key: if g.key is Some {
                            g.key
                        } else {
                            Some(l)
                        },
                        addresses: g.addresses,
                    },
                )
            } else {
                Err(
                    refusal(
                        name + " has a line that is neither a key nor an address:\n  "@ + abridged(
                            l,
                            40,
                        ),
                    ),
                )
            },
        }
    }
}

/// The handover that a text carries, `name` being what it is spoken of as.
pub open spec fn handover_in(text: Seq<char>, name: Seq<char>) -> Result<HandoverView, FailView> {
    if contains(text, "PRIVATE KEY"@) {
        Err(
            refusal(
                name
                    + " is a private key; a handover carries the public half, and is what beb-courier whoami prints"@,
            ),
        )
    } else {
        match gathered(lines(text), name) {
            Err(f) => Err(f),
            Ok(g) => match g.key {
                Some(key) => Ok(
                    HandoverView { key, label: comment(key), addresses: g.addresses },
                ),
                None => Err(
                    refusal(
                        name
                            + " has no public key on it; beb-courier whoami prints one, first"@,
                    ),
                ),
            },
        }
    }
}

/// What a handover is spoken of as: `-` is standard input.
pub open spec fn handover_name_of(path: Seq<char>) -> Seq<char> {
    if path == "-"@ {
        "the handover on stdin"@
    } else {
        path
    }
}

/// What `whoami` prints: the key first, the addresses after.
pub open spec fn handover_text(key: Seq<char>, mine: Seq<Seq<char>>) -> Seq<char> {
    unlines(seq![trim(key)] + mine)
}

pub fn handover_name(path: &str) -> (res: String)
    ensures
        res@ == handover_name_of(path@),
{
    if crate::text::same(path, "-") {
        "the handover on stdin".to_string()
    } else {
        path.to_string()
    }
}

fn key_line(w: &Vec<&str>) -> (res: bool)
    ensures
        res == ({
            let s = slices(w@);
            &&& s.len() >= 2
            &&& starts_with(s[0], "ssh-"@) || starts_with(s[0], "ecdsa-"@) || starts_with(
                s[0],
                "sk-"@,
            )
        }),
{
    w.len() >= 2 && (has_prefix(w[0], "ssh-") || has_prefix(w[0], "ecdsa-") || has_prefix(
        w[0],
        "sk-",
    ))
}

/// Reads a handover: a public key, and the addresses its machine reads for.
pub fn parse_handover(text: &str, name: &str) -> (res: Result<Handover, Fail>)
    ensures
        handover_result(res) == handover_in(text@, name@),
{
    if has_part(text, "PRIVATE KEY") {
        return Err(
            refused(
                cat2(
                    name,
                    " is a private key; a handover carries the public half, and is what beb-courier whoami prints",
                ),
            ),
        );
    }
    let ls = split_lines(text);
    let ghost all = lines(text@);
    let mut key: Option<String> = None;
    let mut label = String::new();
    let mut addresses: Vec<String> = Vec::new();
    assert(texts(addresses@) =~= Seq::<Seq<char>>::empty());
    for i in 0..ls.len()
        invariant
            !contains(text@, "PRIVATE KEY"@),
            all == lines(text@),
            all == slices(ls@),
            gathered(all.take(i as int), name@) == Ok::<Gathered, FailView>(
                Gathered { key: text_opt(key), addresses: texts(addresses@) },
            ),
            key matches Some(k) ==> label@ == comment(k@),
    {
        let ghost before = texts(addresses@);
        proof {
            assert(all.take(i + 1).drop_last() =~= all.take(i as int));
            assert(all.take(i + 1).last() == ls@[i as int]@);
        }
        let l = trimmed(ls[i]);
        if l.is_empty() || l.get_char(0) == '#' {
        } else if is_address(l) {
            addresses.push(l.to_string());
            assert(texts(addresses@) =~= before.push(l@));
        } else {
            let w = split_words(l);
            if key_line(&w) {
                if key.is_none() {
                    label = join_from(&w, 2, " ");
                    key = Some(l.to_string());
                }
            } else {
                let f = refused(
                    cat3(
                        name,
                        " has a line that is neither a key nor an address:\n  ",
                        trim_to(l, 40).as_str(),
                    ),
                );
                proof {
                    lemma_gathered_error(all, name@, i + 1, f@);
                }
                return Err(f);
            }
        }
    }
    assert(all.take(ls@.len() as int) =~= all);
    match key {
        Some(key) => Ok(Handover { key, label, addresses }),
        None => Err(
            refused(
                cat2(name, " has no public key on it; beb-courier whoami prints one, first"),
            ),
        ),
    }
}

/// What is wrong with the first lines is wrong with all of them.
proof fn lemma_gathered_error(ls: Seq<Seq<char>>, name: Seq<char>, n: int, f: FailView)
    requires
        0 <= n <= ls.len(),
        gathered(ls.take(n), name) == Err::<Gathered, FailView>(f),
    ensures
        gathered(ls, name) == Err::<Gathered, FailView>(f),
    decreases ls.len() - n,
{
    if n == ls.len() {
        assert(ls.take(n) =~= ls);
    } else {
        assert(ls.take(n + 1).drop_last() =~= ls.take(n));
        lemma_gathered_error(ls, name, n + 1, f);
    }
}

/// What `whoami` says of a key and the addresses read here.
pub open spec fn whoami_notes(n: nat) -> Seq<Seq<char>> {
    seq![
        if n == 0 {
            "1 key, and no identity reads on this machine yet, so there is nothing to collect\nbeb init NAME makes one, then run this again"@
        } else {
            "1 key, "@ + decimal(n) + " addresses this machine reads for"@
        },
        "give this to whoever runs the depot: beb-depot authorize <this file>"@,
        "or to a peer, who reads it with: beb-courier route add / beb-courier authorize"@,
    ]
}

/// Everything the far side needs from this machine, and nothing else: the key
/// that will be calling, and the addresses it collects for. `key` is the
/// public half, where there is one.
pub fn whoami(key: Option<&str>, mine: &Vec<String>, root: &str) -> (res: Result<Report, Fail>)
    ensures
        match (res, key) {
            (Ok(r), Some(k)) => r@ == (ReportView {
                out: handover_text(k@, texts(mine@)),
                notes: whoami_notes(mine@.len()),
            }),
            (Err(f), None) => f@ == crate::fail::mistake(
                "no courier key in "@ + root@ + "; make one with: beb-courier init"@,
            ),
            _ => false,
        },
{
    let key = match key {
        Some(k) => trimmed(k),
        None => {
            return Err(
                Fail::from(
                    cat3("no courier key in ", root, "; make one with: beb-courier init"),
                ),
            );
        },
    };
    let ghost all = texts(mine@);
    let mut out = String::new();
    add_line(&mut out, key);
    proof {
        let one = seq![key@] + all.take(0);
        assert(one =~= seq![key@]);
        assert(one.drop_last() =~= Seq::<Seq<char>>::empty());
        assert(unlines(one.drop_last()) =~= Seq::<char>::empty());
        assert(out@ =~= unlines(one));
    }
    for i in 0..mine.len()
        invariant
            all == texts(mine@),
            out@ == unlines(seq![key@] + all.take(i as int)),
    {
        add_line(&mut out, mine[i].as_str());
        proof {
            let next = seq![key@] + all.take(i + 1);
            assert(next.drop_last() =~= seq![key@] + all.take(i as int));
            assert(next.last() == mine@[i as int]@);
        }
    }
    assert(all.take(mine@.len() as int) =~= all);
    let mut notes: Vec<String> = Vec::new();
    let n: u64 = mine.len() as u64;
    if mine.len() == 0 {
        notes.push(
            "1 key, and no identity reads on this machine yet, so there is nothing to collect\nbeb init NAME makes one, then run this again".to_string(),
        );
    } else {
        notes.push(cat3("1 key, ", decimal_of(n).as_str(), " addresses this machine reads for"));
    }
    notes.push(
        "give this to whoever runs the depot: beb-depot authorize <this file>".to_string(),
    );
    notes.push(
        "or to a peer, who reads it with: beb-courier route add / beb-courier authorize".to_string(),
    );
    assert(texts(notes@) =~= whoami_notes(mine@.len()));
    Ok(Report { out, notes })
}

/// A line that begins like a key begins with no hash sign and is no address.
proof fn lemma_key_line(l: Seq<char>)
    requires
        is_key(l),
        trim(l) == l,
    ensures
        l.len() > 0,
        l[0] != '#',
        !address(l),
{
    reveal_strlit("ssh-");
    reveal_strlit("ecdsa-");
    reveal_strlit("sk-");
    let w = words(l);
    lemma_trim_twice(l);
    lemma_first_word(l);
    let f = first_word(l);
    assert(w[0] == f);
    assert(l =~= f + after_word(l));
    assert(f[0] == 's' || f[0] == 'e') by {
        if starts_with(f, "ssh-"@) {
            assert(f.take(4)[0] == "ssh-"@[0]);
        } else if starts_with(f, "ecdsa-"@) {
            assert(f.take(6)[0] == "ecdsa-"@[0]);
        } else {
            assert(f.take(3)[0] == "sk-"@[0]);
        }
    }
    assert(l[0] == f[0]);
    let rest = after_word(l);
    if rest.len() == 0 {
        assert(first_word(rest).len() == 0) by {
            lemma_first_word(rest);
        }
        assert(words(rest) =~= Seq::<Seq<char>>::empty());
        assert(w =~= seq![f]);
    }
    if address(l) {
        assert(l[f.len() as int] == rest[0]);
        assert(is_hex(l[f.len() as int]));
    }
}

/// No address has a line feed in it or ends in a carriage return.
pub proof fn lemma_address_is_a_line(a: Seq<char>)
    requires
        address(a),
    ensures
        !a.contains('\n'),
        chomp(a) == a,
        spaceless(a),
        trim(a) == a,
        a[0] != '#',
{
    assert(is_hex(a[0]));
    assert(is_hex(a[63]));
    assert forall|i: int| 0 <= i < a.len() implies !is_space(#[trigger] a[i]) by {
        assert(is_hex(a[i]));
    }
    if a.contains('\n') {
        let i = choose|i: int| 0 <= i < a.len() && a[i] == '\n';
        assert(is_space(a[i]));
    }
    lemma_trim_none(a);
}

/// A private key's mark in what `whoami` prints would be in the key's line.
proof fn lemma_no_private_key(key: Seq<char>, mine: Seq<Seq<char>>)
    requires
        !contains(key, "PRIVATE KEY"@),
        forall|i: int| 0 <= i < mine.len() ==> address(#[trigger] mine[i]),
    ensures
        !contains(unlines(seq![key] + mine), "PRIVATE KEY"@),
        forall|i: int|
            key.len() <= i < unlines(seq![key] + mine).len() ==> {
                let c = #[trigger] unlines(seq![key] + mine)[i];
                c == '\n' || is_hex(c)
            },
        unlines(seq![key] + mine).len() >= key.len(),
        unlines(seq![key] + mine).take(key.len() as int) == key,
    decreases mine.len(),
{
    let all = seq![key] + mine;
    let s = unlines(all);
    let front = seq![key] + mine.drop_last();
    if mine.len() == 0 {
        assert(all.drop_last() =~= Seq::<Seq<char>>::empty());
        assert(unlines(all.drop_last()) =~= Seq::<char>::empty());
        assert(s =~= key + seq!['\n']);
        assert(s.take(key.len() as int) =~= key);
    } else {
        lemma_no_private_key(key, mine.drop_last());
        assert(all.drop_last() =~= front);
        let a = mine.last();
        let u = unlines(front);
        assert(s == u + a + seq!['\n']);
        assert forall|i: int| key.len() <= i < s.len() implies {
            let c = #[trigger] s[i];
            c == '\n' || is_hex(c)
        } by {
            if i < u.len() {
                assert(s[i] == u[i]);
            } else if i < u.len() + a.len() {
                assert(s[i] == a[i - u.len()]);
                assert(is_hex(a[i - u.len()]));
            }
        }
        assert(s.take(key.len() as int) =~= u.take(key.len() as int));
    }
    reveal_strlit("PRIVATE KEY");
    let p = "PRIVATE KEY"@;
    if contains(s, p) {
        let i = choose|i: int| 0 <= i && #[trigger] starts_with(s.skip(i), p) && i <= s.len();
        assert(s.skip(i).take(11)[0] == 'P');
        assert(s.skip(i).take(11)[10] == 'Y');
        assert(s[i + 10] == 'Y');
        assert(i + 10 < key.len());
        let t = s.take(key.len() as int);
        assert(t.skip(i).take(11) =~= s.skip(i).take(11));
        assert(starts_with(key.skip(i), p));
    }
}

/// What `whoami` prints is read back as the key, its comment and the
/// addresses, in the order in which they were printed.
pub proof fn law_handover_is_read_back(key: Seq<char>, mine: Seq<Seq<char>>, name: Seq<char>)
    requires
        is_key(trim(key)),
        !trim(key).contains('\n'),
        !contains(trim(key), "PRIVATE KEY"@),
        forall|i: int| 0 <= i < mine.len() ==> address(#[trigger] mine[i]),
    ensures
        handover_in(handover_text(key, mine), name) == Ok::<HandoverView, FailView>(
            HandoverView { key: trim(key), label: comment(trim(key)), addresses: mine },
        ),
{
    let k = trim(key);
    let ls = seq![k] + mine;
    lemma_trim_twice(key);
    lemma_key_line(k);
    lemma_no_private_key(k, mine);
    assert forall|i: int| 0 <= i < ls.len() implies !(#[trigger] ls[i]).contains('\n') && chomp(
        ls[i],
    ) == ls[i] by {
        if i > 0 {
            assert(ls[i] == mine[i - 1]);
            lemma_address_is_a_line(mine[i - 1]);
        }
    }
    lemma_lines_unlines(ls);
    assert(chomped(ls) =~= ls);
    lemma_gathered_handover(k, mine, name);
}

proof fn lemma_gathered_handover(k: Seq<char>, mine: Seq<Seq<char>>, name: Seq<char>)
    requires
        trim(k) == k,
        is_key(k),
        forall|i: int| 0 <= i < mine.len() ==> address(#[trigger] mine[i]),
    ensures
        gathered(seq![k] + mine, name) == Ok::<Gathered, FailView>(
            Gathered { key: Some(k), addresses: mine },
        ),
    decreases mine.len(),
{
    let ls = seq![k] + mine;
    lemma_key_line(k);
    if mine.len() == 0 {
        assert(ls.drop_last() =~= Seq::<Seq<char>>::empty());
        assert(gathered(ls.drop_last(), name) == Ok::<Gathered, FailView>(
            Gathered { key: None, addresses: Seq::empty() },
        ));
        assert(ls.last() == k);
        assert(mine =~= Seq::<Seq<char>>::empty());
    } else {
        lemma_gathered_handover(k, mine.drop_last(), name);
        assert(ls.drop_last() =~= seq![k] + mine.drop_last());
        assert(ls.last() == mine.last());
        lemma_address_is_a_line(mine.last());
        assert(mine.drop_last().push(mine.last()) =~= mine);
    }
}

/// The key of a handover is a key's line, trimmed.
pub proof fn lemma_handover_key(text: Seq<char>, name: Seq<char>, h: HandoverView)
    requires
        handover_in(text, name) == Ok::<HandoverView, FailView>(h),
    ensures
        is_key(h.key),
        trim(h.key) == h.key,
        !h.key.contains('\n'),
        h.label == comment(h.key),
{
    lemma_lines_have_no_line_feed(text);
    lemma_gathered_key(lines(text), name, gathered(lines(text), name)->Ok_0);
}

proof fn lemma_gathered_key(ls: Seq<Seq<char>>, name: Seq<char>, g: Gathered)
    requires
        gathered(ls, name) == Ok::<Gathered, FailView>(g),
        forall|i: int| 0 <= i < ls.len() ==> !(#[trigger] ls[i]).contains('\n'),
    ensures
        g.key matches Some(k) ==> is_key(k) && trim(k) == k && !k.contains('\n'),
    decreases ls.len(),
{
    if ls.len() > 0 {
        let d = ls.drop_last();
        let g0 = gathered(d, name)->Ok_0;
        assert forall|i: int| 0 <= i < d.len() implies !(#[trigger] d[i]).contains('\n') by {
            assert(d[i] == ls[i]);
        }
        lemma_gathered_key(d, name, g0);
        assert(ls[ls.len() - 1] == ls.last());
        lemma_trim_twice(ls.last());
        lemma_pieces_hold_nothing_new(ls.last(), '\n');
    }
}

// ---- what a handover is -------------------------------------------------------------

proof fn lemma_gathered(ls: Seq<Seq<char>>, name: Seq<char>)
    ensures
        ({
            let like_a_key = |l: Seq<char>|
                words(l).len() >= 2 && (starts_with(words(l)[0], "ssh-"@) || starts_with(
                    words(l)[0],
                    "ecdsa-"@,
                ) || starts_with(words(l)[0], "sk-"@));
            let fits = |l: Seq<char>|
                trim(l).len() == 0 || trim(l)[0] == '#' || address(trim(l)) || like_a_key(trim(l));
            let r = gathered(ls, name);
            &&& r is Ok <==> forall|i: int| 0 <= i < ls.len() ==> fits(#[trigger] ls[i])
            &&& r matches Err(f) ==> f.code == 3
            &&& r matches Ok(g) ==> {
                &&& g.addresses == ls.map_values(|l: Seq<char>| trim(l)).filter(
                    |l: Seq<char>| address(l),
                )
                &&& g.key is None <==> forall|i: int|
                    0 <= i < ls.len() ==> !like_a_key(trim(#[trigger] ls[i]))
                &&& g.key matches Some(k) ==> exists|i: int|
                    #![trigger ls[i]]
                    0 <= i < ls.len() && trim(ls[i]) == k && like_a_key(k) && forall|j: int|
                        0 <= j < i ==> !like_a_key(trim(#[trigger] ls[j]))
            }
        }),
    decreases ls.len(),
{
    reveal(Seq::filter);
    let like_a_key = |l: Seq<char>|
        words(l).len() >= 2 && (starts_with(words(l)[0], "ssh-"@) || starts_with(
            words(l)[0],
            "ecdsa-"@,
        ) || starts_with(words(l)[0], "sk-"@));
    let fits = |l: Seq<char>|
        trim(l).len() == 0 || trim(l)[0] == '#' || address(trim(l)) || like_a_key(trim(l));
    let trimmed_all = ls.map_values(|l: Seq<char>| trim(l));
    if ls.len() == 0 {
        assert(trimmed_all.filter(|l: Seq<char>| address(l)) =~= Seq::<Seq<char>>::empty());
    } else {
        let d = ls.drop_last();
        let last = ls.last();
        let l = trim(last);
        lemma_gathered(d, name);
        assert(trimmed_all.drop_last() =~= d.map_values(|l: Seq<char>| trim(l)));
        assert(trimmed_all.last() == l);
        assert(last == ls[ls.len() - 1]);
        lemma_trim_twice(last);
        if is_key(l) {
            lemma_key_line(l);
        }
        if l.len() > 0 && l[0] == '#' && address(l) {
            assert(is_hex(l[0]));
        }
        if gathered(d, name) is Ok {
            assert forall|i: int| 0 <= i < d.len() implies fits(#[trigger] d[i]) by {}
            let g0 = gathered(d, name)->Ok_0;
            if fits(last) {
                assert forall|i: int| 0 <= i < ls.len() implies fits(#[trigger] ls[i]) by {
                    if i < d.len() {
                        assert(ls[i] == d[i]);
                    }
                }
                if g0.key is None {
                    assert forall|i: int| 0 <= i < d.len() implies !like_a_key(
                        trim(#[trigger] ls[i]),
                    ) by {
                        assert(ls[i] == d[i]);
                    }
                } else {
                    let k = g0.key.unwrap();
                    let i = choose|i: int|
                        #![trigger d[i]]
                        0 <= i < d.len() && trim(d[i]) == k && like_a_key(k) && forall|j: int|
                            0 <= j < i ==> !like_a_key(trim(#[trigger] d[j]));
                    assert(ls[i] == d[i]);
                    assert forall|j: int| 0 <= j < i implies !like_a_key(trim(#[trigger] ls[j])) by {
                        assert(ls[j] == d[j]);
                    }
                }
            }
        } else {
            let i = choose|i: int| 0 <= i < d.len() && !fits(#[trigger] d[i]);
            assert(ls[i] == d[i]);
        }
    }
}

/// A text is a handover exactly if it has no private key's mark, some line
/// that reads as a public key, and no line but such, addresses, comments and
/// blank ones. Its key is the first that there is, its label what follows the
/// key's second word, and its addresses are all there are, in order.
pub proof fn law_what_a_handover_is(text: Seq<char>, name: Seq<char>)
    ensures
        ({
            let ls = lines(text);
            let like_a_key = |l: Seq<char>|
                words(l).len() >= 2 && (starts_with(words(l)[0], "ssh-"@) || starts_with(
                    words(l)[0],
                    "ecdsa-"@,
                ) || starts_with(words(l)[0], "sk-"@));
            let fits = |l: Seq<char>|
                trim(l).len() == 0 || trim(l)[0] == '#' || address(trim(l)) || like_a_key(trim(l));
            let r = handover_in(text, name);
            &&& r is Ok <==> {
                &&& !contains(text, "PRIVATE KEY"@)
                &&& forall|i: int| 0 <= i < ls.len() ==> fits(#[trigger] ls[i])
                &&& exists|i: int| 0 <= i < ls.len() && like_a_key(trim(#[trigger] ls[i]))
            }
            &&& r matches Err(f) ==> f.code == 3
            &&& r matches Ok(h) ==> {
                &&& h.addresses == ls.map_values(|l: Seq<char>| trim(l)).filter(
                    |l: Seq<char>| address(l),
                )
                &&& h.label == joined(words(h.key).skip(2), " "@)
                &&& exists|i: int|
                    #![trigger ls[i]]
                    0 <= i < ls.len() && trim(ls[i]) == h.key && like_a_key(h.key) && forall|
                        j: int,
                    |
                        0 <= j < i ==> !like_a_key(trim(#[trigger] ls[j]))
            }
        }),
{
    lemma_gathered(lines(text), name);
}

/// What `whoami` prints is the key, trimmed, and each address, a line each.
pub proof fn law_whoami_prints_a_line_each(key: Seq<char>, mine: Seq<Seq<char>>, a: Seq<char>)
    ensures
        handover_text(key, Seq::empty()) == trim(key) + seq!['\n'],
        handover_text(key, mine.push(a)) == handover_text(key, mine) + a + seq!['\n'],
{
    let one = seq![trim(key)];
    assert(one + Seq::<Seq<char>>::empty() =~= one);
    assert(one.drop_last() =~= Seq::<Seq<char>>::empty());
    assert(unlines(one.drop_last()) =~= Seq::<char>::empty());
    assert(unlines(one) =~= trim(key) + seq!['\n']);
    assert((one + mine.push(a)).drop_last() =~= one + mine);
}

/// A handover is spoken of by its path, unless it comes from standard input;
/// `whoami` says how many addresses there are, where there are any.
pub proof fn law_how_a_handover_is_spoken_of(path: Seq<char>, n: nat)
    ensures
        path != "-"@ ==> handover_name_of(path) == path,
        handover_name_of("-"@) == "the handover on stdin"@,
        n > 0 ==> starts_with(whoami_notes(n)[0], "1 key, "@ + decimal(n) + " addresses"@),
        n == 0 ==> starts_with(whoami_notes(n)[0], "1 key, and no identity"@),
        whoami_notes(n).len() == 3,
{
    let m = whoami_notes(n)[0];
    if n > 0 {
        assert(" addresses this machine reads for"@ =~= " addresses"@
            + " this machine reads for"@) by {
            reveal_strlit(" addresses this machine reads for");
            reveal_strlit(" addresses");
            reveal_strlit(" this machine reads for");
        }
        let p = "1 key, "@ + decimal(n) + " addresses"@;
        assert(m =~= p + " this machine reads for"@);
        assert(m.take(p.len() as int) =~= p);
    } else {
        reveal_strlit(
            "1 key, and no identity reads on this machine yet, so there is nothing to collect\nbeb init NAME makes one, then run this again",
        );
        reveal_strlit("1 key, and no identity");
        assert(m.take("1 key, and no identity"@.len() as int) =~= "1 key, and no identity"@);
    }
}

proof fn lemma_gathered_names(ls: Seq<Seq<char>>, name: Seq<char>)
    ensures
        gathered(ls, name) matches Err(f) ==> starts_with(f.msg, name),
    decreases ls.len(),
{
    if ls.len() > 0 {
        lemma_gathered_names(ls.drop_last(), name);
        if gathered(ls.drop_last(), name) is Ok {
            if let Err(f) = gathered(ls, name) {
                assert(f.msg.take(name.len() as int) =~= name);
            }
        }
    }
}

/// A handover that is none is named.
pub proof fn law_what_is_no_handover_is_named(text: Seq<char>, name: Seq<char>, f: FailView)
    requires
        handover_in(text, name) == Err::<HandoverView, FailView>(f),
    ensures
        starts_with(f.msg, name),
{
    lemma_gathered_names(lines(text), name);
    if contains(text, "PRIVATE KEY"@) || gathered(lines(text), name) is Ok {
        assert(f.msg.take(name.len() as int) =~= name);
    }
}

} // verus!
