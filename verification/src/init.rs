//! Minting the courier's key.

use crate::compose::{cat2, cat4};
use crate::fail::{mistake, refusal, refused, Fail};
use crate::paths::byte_views;
use crate::ssh::paired;
use crate::text::{
    chars_of, first_word, is_space, law_words_are_what_whitespace_separates, lemma_first_word,
    lemma_trim_start, lemma_trim_twice, lemma_words_of_trimmed, slice_opt, space, spaceless, texts,
    trim, trimmed, words,
};
use vstd::prelude::*;
use vstd::string::StrSliceExecFns;
use vstd::utf8::encode_utf8;

verus! {

/// What a machine calls itself, by what `hostname` printed where it ran and
/// succeeded.
pub open spec fn host_named(out: Option<Seq<char>>) -> Seq<char> {
    match out {
        Some(s) => if trim(s).len() > 0 && spaceless(trim(s)) {
            trim(s)
        } else {
            "unknown"@
        },
        None => "unknown"@,
    }
}

fn is_spaceless(s: &str) -> (res: bool)
    ensures
        res == spaceless(s@),
{
    let cs = chars_of(s);
    for i in 0..cs.len()
        invariant
            cs@ == s@,
            forall|j: int| 0 <= j < i ==> !is_space(#[trigger] cs@[j]),
    {
        if space(cs[i]) {
            assert(is_space(s@[i as int]));
            return false;
        }
    }
    true
}

/// What this machine calls itself: what `hostname` printed, if that is one
/// word.
pub fn hostname(out: Option<&str>) -> (res: String)
    ensures
        res@ == host_named(slice_opt(out)),
{
    match out {
        Some(s) => {
            let t = trimmed(s);
            if !t.is_empty() && is_spaceless(t) {
                t.to_string()
            } else {
                "unknown".to_string()
            }
        },
        None => "unknown".to_string(),
    }
}

/// The comment on the courier's key, which is how an operator tells one line
/// of authorized_keys from the next.
pub fn key_label(out: Option<&str>) -> (res: String)
    ensures
        res@ == "beb-courier@"@ + host_named(slice_opt(out)),
{
    cat2("beb-courier@", hostname(out).as_str())
}

/// Refused rather than overwritten: a new key is a key nowhere has been told
/// about, and replacing one silently would leave this machine unable to
/// collect with no sign of why.
pub fn may_mint(has_key: bool, root: &str, routes: &str) -> (res: Result<(), Fail>)
    ensures
        match res {
            Ok(_) => !has_key,
            Err(f) => has_key && f@ == refusal(
                root@ + " already has a courier key; where its mail goes is "@ + routes@,
            ),
        },
{
    if has_key {
        let mut msg = cat2(root, " already has a courier key; where its mail goes is ");
        msg.append(routes);
        return Err(refused(msg));
    }
    Ok(())
}

/// The arguments that mint a key without a passphrase.
pub open spec fn keygen_line(label: Seq<char>, key: Seq<u8>) -> Seq<Seq<u8>> {
    seq![
        encode_utf8("-q"@),
        encode_utf8("-t"@),
        encode_utf8("ed25519"@),
        encode_utf8("-N"@),
        encode_utf8(""@),
        encode_utf8("-C"@),
        encode_utf8(label),
        encode_utf8("-f"@),
        key,
    ]
}

/// The arguments for ssh-keygen.
pub fn keygen_args(label: &str, key: &[u8]) -> (res: Vec<Vec<u8>>)
    ensures
        byte_views(res@) == keygen_line(label@, key@),
{
    let mut out: Vec<Vec<u8>> = Vec::new();
    out.push("-q".as_bytes_vec());
    out.push("-t".as_bytes_vec());
    out.push("ed25519".as_bytes_vec());
    out.push("-N".as_bytes_vec());
    out.push("".as_bytes_vec());
    out.push("-C".as_bytes_vec());
    out.push(label.as_bytes_vec());
    out.push("-f".as_bytes_vec());
    out.push(vstd::slice::slice_to_vec(key));
    assert(byte_views(out@) =~= keygen_line(label@, key@));
    out
}

/// What ssh-keygen's answer comes to: what to say of the key, or what
/// ssh-keygen said.
pub fn minted(success: bool, said: &str, label: &str, key: &str) -> (res: Result<
    Vec<String>,
    Fail,
>)
    ensures
        match res {
            Ok(notes) => success && texts(notes@) == seq![
                "courier key "@ + label@ + " in "@ + key@,
                "nowhere to carry to yet: beb-courier route add ssh://host"@,
            ],
            Err(f) => !success && f@ == mistake("ssh-keygen: "@ + trim(said@)),
        },
{
    if !success {
        return Err(Fail::from(cat2("ssh-keygen: ", trimmed(said))));
    }
    let mut notes: Vec<String> = Vec::new();
    notes.push(cat4("courier key ", label, " in ", key));
    notes.push("nowhere to carry to yet: beb-courier route add ssh://host".to_string());
    assert(texts(notes@) =~= seq![
        "courier key "@ + label@ + " in "@ + key@,
        "nowhere to carry to yet: beb-courier route add ssh://host"@,
    ]);
    Ok(notes)
}

/// A machine is called by the one word that `hostname` printed, whatever
/// whitespace is around it, and is unknown where that is no one word or
/// nothing was printed.
pub proof fn law_a_machine_is_called_by_one_word(out: Seq<char>)
    ensures
        words(out).len() == 1 ==> host_named(Some(out)) == words(out)[0],
        words(out).len() != 1 ==> host_named(Some(out)) == "unknown"@,
        host_named(None) == "unknown"@,
{
    let t = trim(out);
    lemma_words_of_trimmed(out);
    lemma_trim_twice(out);
    if t.len() == 0 {
        assert(first_word(t).len() == 0);
        assert(words(t) =~= Seq::<Seq<char>>::empty());
    } else if spaceless(t) {
        law_words_are_what_whitespace_separates(t, ' ', Seq::empty());
    } else {
        let i = choose|i: int| 0 <= i < t.len() && is_space(#[trigger] t[i]);
        assert(0 < i < t.len() - 1);
        let a = t.take(i);
        let b = t.skip(i + 1);
        assert(t =~= a.push(t[i]) + b);
        law_words_are_what_whitespace_separates(a, t[i], b);
        lemma_some_word(a, 0);
        lemma_some_word(b, b.len() - 1);
    }
}

/// A text with something on it has a word.
proof fn lemma_some_word(s: Seq<char>, i: int)
    requires
        0 <= i < s.len(),
        !is_space(s[i]),
    ensures
        words(s).len() > 0,
{
    lemma_trim_start(s);
    lemma_first_word(s);
    if first_word(s).len() == 0 {
        assert(is_space(s[i]));
    }
}

/// ssh-keygen is told the label, the file and no passphrase, each behind its
/// flag.
pub proof fn law_a_key_is_minted_as_asked(label: Seq<char>, key: Seq<u8>)
    ensures
        paired(keygen_line(label, key), encode_utf8("-C"@), encode_utf8(label)),
        paired(keygen_line(label, key), encode_utf8("-f"@), key),
        paired(keygen_line(label, key), encode_utf8("-N"@), Seq::empty()),
        paired(keygen_line(label, key), encode_utf8("-t"@), encode_utf8("ed25519"@)),
        keygen_line(label, key).len() == 9,
{
    let l = keygen_line(label, key);
    reveal_strlit("");
    assert(""@ =~= Seq::<char>::empty());
    assert(l[1] == encode_utf8("-t"@) && l[2] == encode_utf8("ed25519"@));
    assert(l[3] == encode_utf8("-N"@) && l[4] =~= Seq::<u8>::empty());
    assert(l[5] == encode_utf8("-C"@) && l[6] == encode_utf8(label));
    assert(l[7] == encode_utf8("-f"@) && l[8] == key);
}

} // verus!
