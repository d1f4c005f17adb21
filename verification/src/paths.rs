//! Where things are kept. A path is the bytes the system knows it by.

use crate::fail::{mistake, Fail, FailView};
use crate::text::slice_opt;
use vstd::prelude::*;
use vstd::utf8::encode_utf8;

verus! {

/// The byte between the parts of a path.
pub const SLASH: u8 = 47;

/// The byte between the directories of a search path.
pub const COLON: u8 = 58;

/// What a name under a directory is called.
pub open spec fn under(dir: Seq<u8>, name: Seq<char>) -> Seq<u8> {
    if dir.len() == 0 || dir.last() == SLASH {
        dir + encode_utf8(name)
    } else {
        dir + seq![SLASH] + encode_utf8(name)
    }
}

/// A variable of the environment that is set and not empty.
pub open spec fn set_to(v: Option<&[u8]>) -> Option<Seq<u8>> {
    match v {
        Some(b) => if b@.len() > 0 {
            Some(b@)
        } else {
            None
        },
        None => None,
    }
}

pub open spec fn path_result(r: Result<Vec<u8>, Fail>) -> Result<Seq<u8>, FailView> {
    match r {
        Ok(p) => Ok(p@),
        Err(f) => Err(f@),
    }
}

/// The path that `v` gives, or `name` under the home directory.
pub open spec fn given_or_home(
    v: Option<Seq<u8>>,
    home: Option<Seq<u8>>,
    name: Seq<char>,
) -> Result<Seq<u8>, FailView> {
    match (v, home) {
        (Some(p), _) => Ok(p),
        (None, Some(h)) => Ok(under(h, name)),
        (None, None) => Err(mistake("HOME is not set"@)),
    }
}

fn copied(b: &[u8]) -> (res: Vec<u8>)
    ensures
        res@ == b@,
{
    let mut out: Vec<u8> = Vec::new();
    add_bytes(&mut out, b);
    out
}

fn add_bytes(out: &mut Vec<u8>, b: &[u8])
    ensures
        final(out)@ == old(out)@ + b@,
{
    let ghost before = out@;
    for i in 0..b.len()
        invariant
            out@ == before + b@.take(i as int),
    {
        out.push(b[i]);
        assert(out@ =~= before + b@.take(i + 1));
    }
    assert(b@.take(b@.len() as int) =~= b@);
}

/// The path of a name under a directory.
pub fn join_path(dir: &[u8], name: &str) -> (res: Vec<u8>)
    ensures
        res@ == under(dir@, name@),
{
    let mut out = copied(dir);
    let n: usize = dir.len();
    if n > 0 && dir[n - 1] != SLASH {
        out.push(SLASH);
        assert(out@ =~= dir@ + seq![SLASH]);
    }
    add_bytes(&mut out, name.as_bytes());
    out
}

fn non_empty(v: Option<&[u8]>) -> (res: Option<Vec<u8>>)
    ensures
        match res {
            Some(p) => set_to(v) == Some(p@),
            None => set_to(v) is None,
        },
{
    match v {
        Some(b) => if b.len() > 0 {
            Some(copied(b))
        } else {
            None
        },
        None => None,
    }
}

/// The home directory, which HOME names.
pub fn home(var: Option<&[u8]>) -> (res: Result<Vec<u8>, Fail>)
    ensures
        path_result(res) == match set_to(var) {
            Some(h) => Ok::<Seq<u8>, FailView>(h),
            None => Err(mistake("HOME is not set"@)),
        },
{
    match non_empty(var) {
        Some(h) => Ok(h),
        None => Err(Fail::from("HOME is not set")),
    }
}

fn given_or(var: Option<&[u8]>, home_var: Option<&[u8]>, name: &str) -> (res: Result<
    Vec<u8>,
    Fail,
>)
    ensures
        path_result(res) == given_or_home(set_to(var), set_to(home_var), name@),
{
    match non_empty(var) {
        Some(p) => Ok(p),
        None => match home(home_var) {
            Ok(h) => Ok(join_path(h.as_slice(), name)),
            Err(f) => Err(f),
        },
    }
}

/// Where the courier keeps its key and its table: BEB_COURIER_ROOT, or the
/// place under the home directory that it defaults to.
pub fn root(var: Option<&[u8]>, home_var: Option<&[u8]>) -> (res: Result<Vec<u8>, Fail>)
    ensures
        path_result(res) == given_or_home(
            set_to(var),
            set_to(home_var),
            ".local/share/beb-courier"@,
        ),
{
    given_or(var, home_var, ".local/share/beb-courier")
}

/// beb's spool, by beb's own rule: under XDG_DATA_HOME, or where that
/// defaults to. A courier with its own idea of where the spool is would be a
/// second opinion about a thing beb decides.
pub fn spool(data_home: Option<&[u8]>, home_var: Option<&[u8]>) -> (res: Result<Vec<u8>, Fail>)
    ensures
        path_result(res) == match set_to(data_home) {
            Some(x) => Ok::<Seq<u8>, FailView>(under(x, "beb"@)),
            None => given_or_home(None, set_to(home_var), ".local/share/beb"@),
        },
{
    match non_empty(data_home) {
        Some(x) => Ok(join_path(x.as_slice(), "beb")),
        None => given_or(None, home_var, ".local/share/beb"),
    }
}

/// The file that sshd reads: BEB_COURIER_AUTHORIZED_KEYS, or the one under
/// the home directory.
pub fn authorized_keys_path(var: Option<&[u8]>, home_var: Option<&[u8]>) -> (res: Result<
    Vec<u8>,
    Fail,
>)
    ensures
        path_result(res) == given_or_home(
            set_to(var),
            set_to(home_var),
            ".ssh/authorized_keys"@,
        ),
{
    given_or(var, home_var, ".ssh/authorized_keys")
}

/// Where this platform keeps the file that would supervise `carry`.
pub fn supervisor_path(home_var: Option<&[u8]>, macos: bool) -> (res: Option<Vec<u8>>)
    ensures
        match (res, set_to(home_var)) {
            (Some(p), Some(h)) => p@ == if macos {
                under(h, "Library/LaunchAgents/dev.getbeb.courier.plist"@)
            } else {
                under(h, ".config/systemd/user/beb-courier.service"@)
            },
            (None, None) => true,
            _ => false,
        },
{
    match home(home_var) {
        Ok(h) => Some(
            if macos {
                join_path(h.as_slice(), "Library/LaunchAgents/dev.getbeb.courier.plist")
            } else {
                join_path(h.as_slice(), ".config/systemd/user/beb-courier.service")
            },
        ),
        Err(_) => None,
    }
}

/// The courier's own key.
pub fn key_path(root: &[u8]) -> (res: Vec<u8>)
    ensures
        res@ == under(root@, "id_ed25519"@),
{
    join_path(root, "id_ed25519")
}

/// The public half of the courier's key.
pub fn public_key_path(root: &[u8]) -> (res: Vec<u8>)
    ensures
        res@ == under(root@, "id_ed25519.pub"@),
{
    join_path(root, "id_ed25519.pub")
}

/// The table.
pub fn routes_path(root: &[u8]) -> (res: Vec<u8>)
    ensures
        res@ == under(root@, "routes"@),
{
    join_path(root, "routes")
}

/// Where a table is written before it takes the place of the one there is: a
/// table half rewritten is a machine that has forgotten where some of its
/// mail goes.
pub fn routes_draft_path(root: &[u8]) -> (res: Vec<u8>)
    ensures
        res@ == under(root@, "routes.writing"@),
{
    join_path(root, "routes.writing")
}

/// What the table grew out of: one line naming one place. Read by nothing
/// now, and refused while it is there.
pub fn depot_path(root: &[u8]) -> (res: Vec<u8>)
    ensures
        res@ == under(root@, "depot"@),
{
    join_path(root, "depot")
}

/// An ssh config of the courier's own, used when it exists. A courier running
/// as a daemon user has no other way to be told a place's host key.
pub fn ssh_config_path(root: &[u8]) -> (res: Vec<u8>)
    ensures
        res@ == under(root@, "ssh_config"@),
{
    join_path(root, "ssh_config")
}

/// What is waiting to leave.
pub fn outbox_path(spool: &[u8]) -> (res: Vec<u8>)
    ensures
        res@ == under(spool@, "outbox"@),
{
    join_path(spool, "outbox")
}

/// The position of the first `c` in `s`, or the length of `s`.
pub open spec fn first_byte(s: Seq<u8>, c: u8) -> nat
    decreases s.len(),
{
    if s.len() > 0 && s[0] != c {
        1 + first_byte(s.drop_first(), c)
    } else {
        0
    }
}

/// The directories of a search path, which colons separate.
pub open spec fn directories(s: Seq<u8>) -> Seq<Seq<u8>>
    decreases s.len(),
{
    let n = first_byte(s, COLON) as int;
    if n >= s.len() {
        seq![s]
    } else {
        seq![s.take(n)] + directories(s.skip(n + 1))
    }
}

pub open spec fn byte_views(v: Seq<Vec<u8>>) -> Seq<Seq<u8>> {
    Seq::new(v.len(), |i: int| v[i]@)
}

/// beb in each of the directories.
pub open spec fn bebs_in(dirs: Seq<Seq<u8>>) -> Seq<Seq<u8>> {
    Seq::new(dirs.len(), |i: int| under(dirs[i], "beb"@))
}

proof fn lemma_first_byte_at(s: Seq<u8>, c: u8, k: int)
    requires
        0 <= k <= s.len(),
        forall|i: int| 0 <= i < k ==> #[trigger] s[i] != c,
        k < s.len() ==> s[k] == c,
    ensures
        first_byte(s, c) == k,
    decreases s.len(),
{
    if s.len() > 0 && s[0] != c {
        let d = s.drop_first();
        assert forall|i: int| 0 <= i < k - 1 implies #[trigger] d[i] != c by {
            assert(d[i] == s[i + 1]);
        }
        lemma_first_byte_at(d, c, k - 1);
    }
}

/// Where beb may be, in the order in which a shell would look: `path` is the
/// search path.
pub fn beb_candidates(path: &[u8]) -> (res: Vec<Vec<u8>>)
    ensures
        byte_views(res@) == bebs_in(directories(path@)),
{
    let n: usize = path.len();
    let ghost all = directories(path@);
    let mut out: Vec<Vec<u8>> = Vec::new();
    let mut a: usize = 0;
    assert(path@.skip(0) =~= path@);
    loop
        invariant_except_break
            n == path@.len(),
            a <= n,
            all == directories(path@),
            out@.len() <= all.len(),
            byte_views(out@) == bebs_in(all).take(out@.len() as int),
            all == all.take(out@.len() as int) + directories(path@.skip(a as int)),
        ensures
            byte_views(out@) == bebs_in(all),
        decreases n - a,
    {
        let ghost tail = path@.skip(a as int);
        let ghost k = out@.len() as int;
        let mut b: usize = a;
        while b < n && path[b] != COLON
            invariant
                n == path@.len(),
                a <= b <= n,
                forall|i: int| a <= i < b ==> #[trigger] path@[i] != COLON,
            decreases n - b,
        {
            b = b + 1;
        }
        proof {
            assert forall|i: int| 0 <= i < b - a implies #[trigger] tail[i] != COLON by {
                assert(tail[i] == path@[i + a]);
            }
            lemma_first_byte_at(tail, COLON, b - a);
        }
        let mut dir: Vec<u8> = Vec::new();
        let mut i: usize = a;
        while i < b
            invariant
                n == path@.len(),
                a <= i <= b <= n,
                dir@ == path@.subrange(a as int, i as int),
            decreases b - i,
        {
            dir.push(path[i]);
            i = i + 1;
            assert(dir@ =~= path@.subrange(a as int, i as int));
        }
        proof {
            assert(dir@ =~= tail.take(b - a));
            assert(directories(tail)[0] =~= dir@);
            assert(all[k] == dir@);
            assert(directories(tail).len() >= 1);
        }
        out.push(join_path(dir.as_slice(), "beb"));
        proof {
            assert(byte_views(out@) =~= bebs_in(all).take(k + 1));
        }
        if b == n {
            proof {
                assert(tail =~= dir@);
                assert(directories(tail) =~= seq![tail]);
                assert(all.len() == k + 1);
                assert(bebs_in(all).take(k + 1) =~= bebs_in(all));
            }
            break;
        }
        proof {
            assert(tail.skip(b - a + 1) =~= path@.skip(b + 1));
            assert(all =~= all.take(k + 1) + directories(path@.skip(b + 1)));
        }
        a = b + 1;
    }
    out
}

/// Somewhere that beb may be, and whether what is there can be run.
pub struct Candidate {
    pub path: String,
    pub runs: bool,
}

/// The first of the candidates that can be run.
pub open spec fn first_that_runs(s: Seq<Candidate>) -> Option<Seq<char>>
    decreases s.len(),
{
    if s.len() == 0 {
        None
    } else if s[0].runs {
        Some(s[0].path@)
    } else {
        first_that_runs(s.drop_first())
    }
}

/// Where beb is: BEB_BIN where it is set to something, or the first candidate
/// that can be run, as a shell would have it, or its bare name.
pub open spec fn beb_at(bin: Option<Seq<char>>, candidates: Seq<Candidate>) -> Seq<char> {
    match (bin, first_that_runs(candidates)) {
        (Some(b), Some(f)) => if b.len() > 0 {
            b
        } else {
            f
        },
        (Some(b), None) => if b.len() > 0 {
            b
        } else {
            "beb"@
        },
        (None, Some(f)) => f,
        (None, None) => "beb"@,
    }
}

/// Where beb is. It is written down, because the shell that writes a
/// supervisor's file and the supervisor that runs it share no search path.
pub fn beb_path(bin: Option<&str>, candidates: &[Candidate]) -> (res: String)
    ensures
        res@ == beb_at(slice_opt(bin), candidates@),
{
    if let Some(b) = bin {
        if !b.is_empty() {
            return b.to_string();
        }
    }
    assert(candidates@.skip(0) =~= candidates@);
    for i in 0..candidates.len()
        invariant
            bin matches Some(b) ==> b@.len() == 0,
            first_that_runs(candidates@) == first_that_runs(candidates@.skip(i as int)),
    {
        assert(candidates@.skip(i as int)[0] == candidates@[i as int]);
        assert(candidates@.skip(i as int).drop_first() =~= candidates@.skip(i + 1));
        if candidates[i].runs {
            return candidates[i].path.clone();
        }
    }
    "beb".to_string()
}

/// What is found is a candidate that can be run, and none before it can;
/// nothing is found exactly if none can be run.
pub proof fn law_the_first_that_runs_is_found(s: Seq<Candidate>)
    ensures
        first_that_runs(s) is None <==> forall|i: int|
            0 <= i < s.len() ==> !(#[trigger] s[i]).runs,
        first_that_runs(s) matches Some(p) ==> exists|i: int|
            #![trigger s[i]]
            0 <= i < s.len() && s[i].runs && s[i].path@ == p && forall|j: int|
                0 <= j < i ==> !(#[trigger] s[j]).runs,
    decreases s.len(),
{
    if s.len() > 0 && !s[0].runs {
        let d = s.drop_first();
        law_the_first_that_runs_is_found(d);
        if first_that_runs(d) is None {
            assert forall|i: int| 0 <= i < s.len() implies !(#[trigger] s[i]).runs by {
                if i > 0 {
                    assert(s[i] == d[i - 1]);
                }
            }
        } else {
            let p = first_that_runs(d).unwrap();
            let i = choose|i: int|
                #![trigger d[i]]
                0 <= i < d.len() && d[i].runs && d[i].path@ == p && forall|j: int|
                    0 <= j < i ==> !(#[trigger] d[j]).runs;
            assert(s[i + 1] == d[i]);
            assert forall|j: int| 0 <= j < i + 1 implies !(#[trigger] s[j]).runs by {
                if j > 0 {
                    assert(s[j] == d[j - 1]);
                }
            }
        }
    }
}

/// The beb that is run: BEB_BIN where it is set, to whatever, or `otherwise`.
pub fn beb_in_use(bin: Option<&str>, otherwise: &str) -> (res: String)
    ensures
        res@ == match bin {
            Some(b) => b@,
            None => otherwise@,
        },
{
    match bin {
        Some(b) => b.to_string(),
        None => otherwise.to_string(),
    }
}

// ---- what the paths are -----------------------------------------------------------------

/// The path of a name under a directory is the directory, a slash unless it
/// is empty or ends in one, and the name.
pub proof fn law_a_path_is_the_directory_and_the_name(dir: Seq<u8>, name: Seq<char>)
    ensures
        ({
            let p = under(dir, name);
            let n = encode_utf8(name).len() as int;
            let d = dir.len() as int;
            &&& p.take(d) == dir
            &&& p.skip(p.len() - n) == encode_utf8(name)
            &&& d == 0 || dir.last() == 47 ==> p.len() == d + n
            &&& d > 0 && dir.last() != 47 ==> p.len() == d + 1 + n && p[d] == 47
        }),
{
    let p = under(dir, name);
    assert(p.take(dir.len() as int) =~= dir);
    assert(p.skip(p.len() - encode_utf8(name).len()) =~= encode_utf8(name));
}

/// A variable that is set to something decides; else the name under the home
/// directory, where HOME is set to something; else nothing can be said.
pub proof fn law_what_is_set_decides(v: Option<&[u8]>, home: Option<&[u8]>, name: Seq<char>)
    ensures
        ({
            let r = given_or_home(set_to(v), set_to(home), name);
            let given = v is Some && v.unwrap()@.len() > 0;
            let housed = home is Some && home.unwrap()@.len() > 0;
            &&& given ==> r == Ok::<Seq<u8>, FailView>(v.unwrap()@)
            &&& !given && housed ==> r == Ok::<Seq<u8>, FailView>(under(home.unwrap()@, name))
            &&& !given && !housed ==> r is Err && r->Err_0.code == 1
        }),
{
}

/// The directories one after the other, a colon between each two.
pub open spec fn rejoined(dirs: Seq<Seq<u8>>) -> Seq<u8>
    decreases dirs.len(),
{
    if dirs.len() == 0 {
        Seq::empty()
    } else if dirs.len() == 1 {
        dirs[0]
    } else {
        dirs[0] + seq![58u8] + rejoined(dirs.drop_first())
    }
}

/// The directories of a search path hold no colon, and are that path again
/// with a colon between each two.
pub proof fn law_colons_separate_directories(s: Seq<u8>)
    ensures
        directories(s).len() > 0,
        rejoined(directories(s)) == s,
        forall|i: int| 0 <= i < directories(s).len() ==> !(#[trigger] directories(s)[i]).contains(58),
    decreases s.len(),
{
    lemma_first_byte(s, COLON);
    let n = first_byte(s, COLON) as int;
    let all = directories(s);
    let head = if n >= s.len() {
        s
    } else {
        s.take(n)
    };
    if head.contains(58) {
        let i = choose|i: int| 0 <= i < head.len() && head[i] == 58;
        assert(s[i] == 58);
    }
    if n < s.len() {
        let rest = s.skip(n + 1);
        law_colons_separate_directories(rest);
        assert(all.drop_first() =~= directories(rest));
        assert(rejoined(all) =~= s);
        assert forall|i: int| 0 <= i < all.len() implies !(#[trigger] all[i]).contains(58) by {
            if i > 0 {
                assert(all[i] == directories(rest)[i - 1]);
            }
        }
    }
}

proof fn lemma_first_byte(s: Seq<u8>, c: u8)
    ensures
        first_byte(s, c) <= s.len(),
        first_byte(s, c) < s.len() ==> s[first_byte(s, c) as int] == c,
        forall|i: int| 0 <= i < first_byte(s, c) ==> #[trigger] s[i] != c,
    decreases s.len(),
{
    if s.len() > 0 && s[0] != c {
        let d = s.drop_first();
        lemma_first_byte(d, c);
        assert forall|i: int| 0 <= i < first_byte(s, c) implies #[trigger] s[i] != c by {
            if i > 0 {
                assert(s[i] == d[i - 1]);
            }
        }
    }
}

/// beb is looked for in every directory of the search path, in order.
pub proof fn law_beb_is_looked_for_everywhere(s: Seq<u8>, i: int)
    requires
        0 <= i < directories(s).len(),
    ensures
        bebs_in(directories(s)).len() == directories(s).len(),
        bebs_in(directories(s))[i] == under(directories(s)[i], "beb"@),
{
}

/// BEB_BIN decides where it is set to something, and otherwise the first
/// candidate that can be run, and otherwise the bare name.
pub proof fn law_beb_bin_decides(bin: Option<Seq<char>>, s: Seq<Candidate>)
    ensures
        bin is Some && bin.unwrap().len() > 0 ==> beb_at(bin, s) == bin.unwrap(),
        bin is None || bin.unwrap().len() == 0 ==> {
            &&& forall|i: int|
                0 <= i < s.len() && (#[trigger] s[i]).runs && (forall|j: int|
                    0 <= j < i ==> !(#[trigger] s[j]).runs) ==> beb_at(bin, s) == s[i].path@
            &&& (forall|i: int| 0 <= i < s.len() ==> !(#[trigger] s[i]).runs) ==> beb_at(bin, s)
                == "beb"@
        },
{
    law_the_first_that_runs_is_found(s);
}

} // verus!
