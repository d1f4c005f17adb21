//! A place mail is carried to.

use crate::compose::{cat2, cat3};
use crate::fail::{refusal, refused, Fail, FailView};
use crate::number::all_digits;
use crate::text::{
    chars_of, clone_opt, has_char, is_digit, same, same_opt, starts_with, text_opt, without_prefix,
};
use vstd::prelude::*;

verus! {

/// A place to reach, not a URL library.
///
/// One scheme today. The scheme is written down anyway so that a second way
/// of reaching a place has somewhere to be named without anything being
/// renamed, which is why a place is not a bare hostname.
#[derive(Debug, Eq)]
pub struct Place {
    pub host: String,
    pub port: Option<String>,
}

#[verifier::ext_equal]
pub struct PlaceView {
    pub host: Seq<char>,
    pub port: Option<Seq<char>>,
}

impl View for Place {
    type V = PlaceView;

    open spec fn view(&self) -> PlaceView {
        PlaceView { host: self.host@, port: text_opt(self.port) }
    }
}

impl vstd::std_specs::cmp::PartialEqSpecImpl for Place {
    open spec fn obeys_eq_spec() -> bool {
        true
    }

    open spec fn eq_spec(&self, other: &Place) -> bool {
        self@ == other@
    }
}

impl PartialEq for Place {
    fn eq(&self, other: &Place) -> (res: bool) {
        same(self.host.as_str(), other.host.as_str()) && same_opt(&self.port, &other.port)
    }
}

impl Clone for Place {
    fn clone(&self) -> (res: Place)
        ensures
            res@ == self@,
    {
        Place { host: self.host.clone(), port: clone_opt(&self.port) }
    }
}

/// The position of the last `c` in `s`, or -1 where there is none.
pub open spec fn last_of(s: Seq<char>, c: char) -> int
    decreases s.len(),
{
    if s.len() == 0 {
        -1
    } else if s.last() == c {
        s.len() - 1
    } else {
        last_of(s.drop_last(), c)
    }
}

/// What follows the scheme, taken apart: digits behind the last colon are a
/// port, if something stands before that colon.
pub open spec fn taken_apart(rest: Seq<char>) -> PlaceView {
    let n = last_of(rest, ':');
    if n > 0 && n + 1 < rest.len() && all_digits(rest.skip(n + 1)) {
        PlaceView { host: rest.take(n), port: Some(rest.skip(n + 1)) }
    } else {
        PlaceView { host: rest, port: None }
    }
}

/// The place that `s` writes: the scheme, then something that is not empty
/// and has no slash in it.
pub open spec fn place_in(s: Seq<char>) -> Result<PlaceView, FailView> {
    let rest = s.skip("ssh://"@.len() as int);
    if !starts_with(s, "ssh://"@) {
        Err(
            refusal(
                "\""@ + s + "\" is not a place; it looks like ssh://[user@]host[:port]"@,
            ),
        )
    } else if rest.len() == 0 || rest.contains('/') {
        Err(
            refusal(
                "\""@ + s
                    + "\" is not a place; it looks like ssh://[user@]host[:port], with no path"@,
            ),
        )
    } else {
        Ok(taken_apart(rest))
    }
}

/// A place as it is written behind the scheme.
pub open spec fn place_text(p: PlaceView) -> Seq<char> {
    match p.port {
        Some(port) => p.host + ":"@ + port,
        None => p.host,
    }
}

pub open spec fn place_result(r: Result<Place, Fail>) -> Result<PlaceView, FailView> {
    match r {
        Ok(p) => Ok(p@),
        Err(f) => Err(f@),
    }
}

pub proof fn lemma_last_of(s: Seq<char>, c: char)
    ensures
        -1 <= last_of(s, c) < s.len(),
        last_of(s, c) >= 0 ==> s[last_of(s, c)] == c,
        forall|i: int| last_of(s, c) < i < s.len() ==> #[trigger] s[i] != c,
    decreases s.len(),
{
    if s.len() > 0 && s.last() != c {
        let d = s.drop_last();
        lemma_last_of(d, c);
        assert forall|i: int| last_of(s, c) < i < s.len() implies #[trigger] s[i] != c by {
            if i < d.len() {
                assert(s[i] == d[i]);
            }
        }
    }
}

proof fn lemma_last_of_at(s: Seq<char>, c: char, k: int)
    requires
        -1 <= k < s.len(),
        k >= 0 ==> s[k] == c,
        forall|i: int| k < i < s.len() ==> #[trigger] s[i] != c,
    ensures
        last_of(s, c) == k,
{
    lemma_last_of(s, c);
    let n = last_of(s, c);
    if n < k {
        assert(s[k] != c);
    } else if k < n {
        assert(s[n] != c);
    }
}

/// A place is read back from what is shown of it, with nothing lost: the
/// text it was read from is the scheme and what is shown.
pub proof fn law_place_shown_is_read_back(s: Seq<char>, p: PlaceView)
    requires
        place_in(s) == Ok::<PlaceView, FailView>(p),
    ensures
        "ssh://"@ + place_text(p) == s,
        place_in("ssh://"@ + place_text(p)) == Ok::<PlaceView, FailView>(p),
{
    let rest = s.skip("ssh://"@.len() as int);
    lemma_last_of(rest, ':');
    reveal_strlit(":");
    assert(place_text(p) =~= rest);
    assert("ssh://"@ + rest =~= s) by {
        assert(s.take("ssh://"@.len() as int) == "ssh://"@);
        assert(s =~= s.take("ssh://"@.len() as int) + rest);
    }
}

/// Two places that are shown alike are the same place.
pub proof fn law_places_shown_alike_are_the_same(s: Seq<char>, t: Seq<char>, p: PlaceView, q: PlaceView)
    requires
        place_in(s) == Ok::<PlaceView, FailView>(p),
        place_in(t) == Ok::<PlaceView, FailView>(q),
        place_text(p) == place_text(q),
    ensures
        p == q,
{
    law_place_shown_is_read_back(s, p);
    law_place_shown_is_read_back(t, q);
}

pub fn parse_place(s: &str) -> (res: Result<Place, Fail>)
    ensures
        place_result(res) == place_in(s@),
{
    let rest = match without_prefix(s, "ssh://") {
        Some(r) => r,
        None => {
            return Err(
                refused(
                    cat3(
                        "\"",
                        s,
                        "\" is not a place; it looks like ssh://[user@]host[:port]",
                    ),
                ),
            );
        },
    };
    if rest.is_empty() || has_char(rest, '/') {
        return Err(
            refused(
                cat3(
                    "\"",
                    s,
                    "\" is not a place; it looks like ssh://[user@]host[:port], with no path",
                ),
            ),
        );
    }
    let cs = chars_of(rest);
    let n: usize = cs.len();
    // What stands behind the last colon, while it is digits.
    let mut i: usize = n;
    while i > 0 && '0' <= cs[i - 1] && cs[i - 1] <= '9'
        invariant
            n == cs@.len(),
            i <= n,
            forall|j: int| i <= j < n ==> is_digit(#[trigger] cs@[j]),
        decreases i,
    {
        i = i - 1;
    }
    if i > 1 && i < n && cs[i - 1] == ':' {
        proof {
            assert(cs@ == rest@);
            lemma_last_of_at(rest@, ':', i - 1);
            assert(rest@.subrange(0, i - 1) =~= rest@.take(i - 1));
            assert(rest@.subrange(i as int, n as int) =~= rest@.skip(i as int));
        }
        Ok(
            Place {
                host: rest.substring_char(0, i - 1).to_string(),
                port: Some(rest.substring_char(i, n).to_string()),
            },
        )
    } else {
        proof {
            assert(cs@ == rest@);
            lemma_last_of(rest@, ':');
            let k = last_of(rest@, ':');
            if k > 0 && k + 1 < n && all_digits(rest@.skip(k + 1)) {
                assert(forall|j: int| k < j < n ==> is_digit(#[trigger] rest@.skip(k + 1)[j - k - 1]));
                assert forall|j: int| k < j < n implies is_digit(#[trigger] rest@[j]) by {
                    assert(rest@[j] == rest@.skip(k + 1)[j - k - 1]);
                }
                if i - 1 > k {
                    assert(is_digit(rest@[i - 1]));
                } else if i <= k {
                    assert(is_digit(cs@[k]));
                }
                assert(i - 1 == k);
            }
        }
        Ok(Place { host: rest.to_string(), port: None })
    }
}

pub fn show(p: &Place) -> (res: String)
    ensures
        res@ == place_text(p@),
{
    match &p.port {
        Some(port) => cat3(p.host.as_str(), ":", port.as_str()),
        None => p.host.clone(),
    }
}

/// A place with its scheme.
pub fn show_in_full(p: &Place) -> (res: String)
    ensures
        res@ == "ssh://"@ + place_text(p@),
{
    cat2("ssh://", show(p).as_str())
}

/// A place is the scheme and something that is not empty and has no slash in
/// it, and nothing else is. What follows the scheme is the host, or the host,
/// a colon and a port of digits: the port is what stands behind a colon that
/// something precedes and only digits follow, and there is none where no
/// colon is so.
pub proof fn law_what_a_place_is(s: Seq<char>)
    ensures
        place_in(s) is Ok <==> starts_with(s, "ssh://"@) && s.len() > 6 && forall|i: int|
            6 <= i < s.len() ==> #[trigger] s[i] != '/',
        place_in(s) matches Err(f) ==> f.code == 3,
        place_in(s) matches Ok(p) ==> {
            &&& p.host.len() > 0
            &&& p.port matches Some(d) ==> {
                &&& s == "ssh://"@ + p.host + ":"@ + d
                &&& d.len() > 0
                &&& forall|i: int| 0 <= i < d.len() ==> '0' <= #[trigger] d[i] <= '9'
            }
            &&& p.port is None ==> {
                &&& s == "ssh://"@ + p.host
                &&& forall|i: int|
                    6 < i < s.len() - 1 && #[trigger] s[i] == ':' ==> exists|k: int|
                        i < k < s.len() && !('0' <= #[trigger] s[k] <= '9')
            }
        },
{
    reveal_strlit("ssh://");
    reveal_strlit(":");
    let rest = s.skip(6);
    if starts_with(s, "ssh://"@) {
        assert(s.take(6) == "ssh://"@);
        assert(s =~= "ssh://"@ + rest);
        if rest.contains('/') {
            let i = choose|i: int| 0 <= i < rest.len() && rest[i] == '/';
            assert(s[i + 6] == '/');
        } else {
            assert forall|i: int| 6 <= i < s.len() implies #[trigger] s[i] != '/' by {
                assert(rest[i - 6] == s[i]);
                assert(rest.contains(rest[i - 6]));
            }
        }
        lemma_last_of(rest, ':');
        let n = last_of(rest, ':');
        if place_in(s) is Ok {
            let p = place_in(s)->Ok_0;
            if p.port is Some {
                let d = p.port.unwrap();
                assert(rest =~= p.host + ":"@ + d);
                assert(s =~= "ssh://"@ + p.host + ":"@ + d);
                assert forall|i: int| 0 <= i < d.len() implies '0' <= #[trigger] d[i] <= '9' by {
                    assert(is_digit(d[i]));
                }
            } else {
                assert forall|i: int| 6 < i < s.len() - 1 && #[trigger] s[i] == ':' implies exists|k:
                    int| i < k < s.len() && !('0' <= #[trigger] s[k] <= '9') by {
                    assert(rest[i - 6] == ':');
                    assert(n >= i - 6);
                    if n + 1 < rest.len() {
                        let z = rest.skip(n + 1);
                        let j = choose|j: int| 0 <= j < z.len() && !is_digit(#[trigger] z[j]);
                        assert(s[j + n + 7] == z[j]);
                        assert(!('0' <= s[j + n + 7] <= '9'));
                    } else if n > i - 6 {
                        assert(s[n + 6] == ':');
                        assert(!('0' <= s[n + 6] <= '9'));
                    } else {
                        assert(n == i - 6);
                    }
                }
            }
        }
    }
}

/// A host and a port are read as they were given: what stands before the last
/// colon, and the digits behind it, however many.
pub proof fn law_a_port_is_read(host: Seq<char>, port: Seq<char>)
    requires
        host.len() > 0,
        !host.contains('/'),
        port.len() > 0,
        forall|i: int| 0 <= i < port.len() ==> '0' <= #[trigger] port[i] <= '9',
    ensures
        place_in("ssh://"@ + host + ":"@ + port) == Ok::<PlaceView, FailView>(
            PlaceView { host, port: Some(port) },
        ),
{
    reveal_strlit("ssh://");
    reveal_strlit(":");
    let rest = host + ":"@ + port;
    let s = "ssh://"@ + host + ":"@ + port;
    assert(s =~= "ssh://"@ + rest);
    assert(s.take(6) =~= "ssh://"@);
    assert(s.skip(6) =~= rest);
    let n = host.len() as int;
    assert forall|i: int| n < i < rest.len() implies #[trigger] rest[i] != ':' by {
        assert(rest[i] == port[i - n - 1]);
    }
    lemma_last_of_at(rest, ':', n);
    assert(rest.take(n) =~= host);
    assert(rest.skip(n + 1) =~= port);
    if rest.contains('/') {
        let i = choose|i: int| 0 <= i < rest.len() && rest[i] == '/';
        if i < n {
            assert(host[i] == '/');
        } else if i > n {
            assert(port[i - n - 1] == '/');
        }
    }
}

/// What is no place is refused by name.
pub proof fn law_what_is_no_place_is_named(s: Seq<char>, f: FailView)
    requires
        place_in(s) == Err::<PlaceView, FailView>(f),
    ensures
        starts_with(f.msg, "\""@ + s + "\" is not a place"@),
{
    let a = "\" is not a place; it looks like ssh://[user@]host[:port]"@;
    let b = "\" is not a place; it looks like ssh://[user@]host[:port], with no path"@;
    let p = "\" is not a place"@;
    assert(a.len() >= p.len() && a.take(p.len() as int) =~= p && b.len() >= p.len() && b.take(
        p.len() as int,
    ) =~= p) by {
        reveal_strlit("\" is not a place; it looks like ssh://[user@]host[:port]");
        reveal_strlit(
            "\" is not a place; it looks like ssh://[user@]host[:port], with no path",
        );
        reveal_strlit("\" is not a place");
    }
    let q = "\""@ + s;
    let m = f.msg;
    let n = (q + p).len() as int;
    assert(m == q + a || m == q + b);
    assert forall|i: int| 0 <= i < n implies m.take(n)[i] == (q + p)[i] by {
        if i >= q.len() {
            let k = i - q.len();
            assert(a.take(p.len() as int)[k] == a[k]);
            assert(b.take(p.len() as int)[k] == b[k]);
        }
    }
    assert(m.take(n) =~= q + p);
}

} // verus!
