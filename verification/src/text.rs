//! Text as the courier reads it: whitespace, words, lines and prefixes.
//!
//! A string is modelled by its characters. Every executable function here
//! is stated against a spec function of the same meaning over `Seq<char>`.

use vstd::prelude::*;
use vstd::utf8::{encode_utf8, encode_utf8_decode_utf8};

verus! {

/// A character of Unicode's `White_Space` property.
pub open spec fn is_space(c: char) -> bool {
    ||| '\u{9}' <= c <= '\u{d}'
    ||| c == '\u{20}'
    ||| c == '\u{85}'
    ||| c == '\u{a0}'
    ||| c == '\u{1680}'
    ||| '\u{2000}' <= c <= '\u{200a}'
    ||| c == '\u{2028}'
    ||| c == '\u{2029}'
    ||| c == '\u{202f}'
    ||| c == '\u{205f}'
    ||| c == '\u{3000}'
}

pub open spec fn is_digit(c: char) -> bool {
    '0' <= c <= '9'
}

/// No character of `s` is whitespace.
pub open spec fn spaceless(s: Seq<char>) -> bool {
    forall|i: int| 0 <= i < s.len() ==> !is_space(#[trigger] s[i])
}

/// `s` without the whitespace it begins with.
pub open spec fn trim_start(s: Seq<char>) -> Seq<char>
    decreases s.len(),
{
    if s.len() > 0 && is_space(s[0]) {
        trim_start(s.drop_first())
    } else {
        s
    }
}

/// `s` without the whitespace it ends with.
pub open spec fn trim_end(s: Seq<char>) -> Seq<char>
    decreases s.len(),
{
    if s.len() > 0 && is_space(s.last()) {
        trim_end(s.drop_last())
    } else {
        s
    }
}

pub open spec fn trim(s: Seq<char>) -> Seq<char> {
    trim_end(trim_start(s))
}

/// How many characters of `s` come before its first whitespace.
pub open spec fn word_len(s: Seq<char>) -> nat
    decreases s.len(),
{
    if s.len() > 0 && !is_space(s[0]) {
        1 + word_len(s.drop_first())
    } else {
        0
    }
}

/// The first word of `s`, empty if `s` has none.
pub open spec fn first_word(s: Seq<char>) -> Seq<char> {
    let t = trim_start(s);
    t.take(word_len(t) as int)
}

/// What follows the first word of `s`.
pub open spec fn after_word(s: Seq<char>) -> Seq<char> {
    let t = trim_start(s);
    t.skip(word_len(t) as int)
}

/// The maximal whitespace-free pieces of `s`, in order.
pub open spec fn words(s: Seq<char>) -> Seq<Seq<char>>
    decreases s.len(),
{
    if first_word(s).len() == 0 {
        Seq::empty()
    } else {
        proof {
            lemma_trim_start(s);
            lemma_word_len(trim_start(s));
        }
        seq![first_word(s)] + words(after_word(s))
    }
}

/// The position of the first `c` in `s`, or the length of `s` where there is none.
pub open spec fn first_of(s: Seq<char>, c: char) -> nat
    decreases s.len(),
{
    if s.len() > 0 && s[0] != c {
        1 + first_of(s.drop_first(), c)
    } else {
        0
    }
}

/// A line without the carriage return it ends with.
pub open spec fn chomp(l: Seq<char>) -> Seq<char> {
    if l.len() > 0 && l.last() == '\r' {
        l.drop_last()
    } else {
        l
    }
}

/// The lines of `s`, each ended by a line feed or by a carriage return and a
/// line feed; the last one may end with `s` instead.
pub open spec fn lines(s: Seq<char>) -> Seq<Seq<char>>
    decreases s.len(),
{
    let n = first_of(s, '\n') as int;
    if s.len() == 0 {
        Seq::empty()
    } else if n >= s.len() {
        seq![s]
    } else {
        seq![chomp(s.take(n))] + lines(s.skip(n + 1))
    }
}

pub open spec fn starts_with(s: Seq<char>, p: Seq<char>) -> bool {
    p.len() <= s.len() && s.take(p.len() as int) == p
}

/// `p` occurs in `s`.
pub open spec fn contains(s: Seq<char>, p: Seq<char>) -> bool {
    exists|i: int| 0 <= i && #[trigger] starts_with(s.skip(i), p) && i <= s.len()
}

/// The pieces one after the other, `sep` between each two.
pub open spec fn joined(pieces: Seq<Seq<char>>, sep: Seq<char>) -> Seq<char>
    decreases pieces.len(),
{
    if pieces.len() == 0 {
        Seq::empty()
    } else if pieces.len() == 1 {
        pieces[0]
    } else {
        joined(pieces.drop_last(), sep) + sep + pieces.last()
    }
}

/// The lines one after the other, each ended by a line feed.
pub open spec fn unlines(ls: Seq<Seq<char>>) -> Seq<char>
    decreases ls.len(),
{
    if ls.len() == 0 {
        Seq::empty()
    } else {
        unlines(ls.drop_last()) + ls.last() + seq!['\n']
    }
}

/// The characters of each of the slices.
pub open spec fn slices(v: Seq<&str>) -> Seq<Seq<char>> {
    Seq::new(v.len(), |i: int| v[i]@)
}

/// The characters of each of the strings.
pub open spec fn texts(v: Seq<String>) -> Seq<Seq<char>> {
    Seq::new(v.len(), |i: int| v[i]@)
}

pub open spec fn text_opt(s: Option<String>) -> Option<Seq<char>> {
    match s {
        Some(t) => Some(t@),
        None => None,
    }
}

pub open spec fn slice_opt(s: Option<&str>) -> Option<Seq<char>> {
    match s {
        Some(t) => Some(t@),
        None => None,
    }
}

// ---- what the recursive definitions mean -----------------------------------

/// `trim_start` cuts off a prefix of whitespace, and all of it.
pub proof fn lemma_trim_start(s: Seq<char>)
    ensures
        trim_start(s).len() <= s.len(),
        trim_start(s) == s.skip(s.len() - trim_start(s).len()),
        forall|i: int|
            0 <= i < s.len() - trim_start(s).len() ==> is_space(#[trigger] s[i]),
        trim_start(s).len() > 0 ==> !is_space(trim_start(s)[0]),
    decreases s.len(),
{
    if s.len() > 0 && is_space(s[0]) {
        lemma_trim_start(s.drop_first());
        let t = trim_start(s.drop_first());
        assert(t == s.skip(s.len() - t.len()));
        assert forall|i: int| 0 <= i < s.len() - t.len() implies is_space(#[trigger] s[i]) by {
            if i > 0 {
                assert(s[i] == s.drop_first()[i - 1]);
            }
        }
    } else {
        assert(s == s.skip(0));
    }
}

/// A cut after a prefix of whitespace, before a character that is none, is
/// the one `trim_start` makes.
pub proof fn lemma_trim_start_at(s: Seq<char>, k: int)
    requires
        0 <= k <= s.len(),
        forall|i: int| 0 <= i < k ==> is_space(#[trigger] s[i]),
        k < s.len() ==> !is_space(s[k]),
    ensures
        trim_start(s) == s.skip(k),
    decreases s.len(),
{
    if s.len() > 0 && is_space(s[0]) {
        let d = s.drop_first();
        assert forall|i: int| 0 <= i < k - 1 implies is_space(#[trigger] d[i]) by {
            assert(d[i] == s[i + 1]);
        }
        lemma_trim_start_at(d, k - 1);
        assert(d.skip(k - 1) == s.skip(k));
    } else {
        assert(k == 0);
        assert(s == s.skip(0));
    }
}

/// `trim_end` cuts off a suffix of whitespace, and all of it.
pub proof fn lemma_trim_end(s: Seq<char>)
    ensures
        trim_end(s).len() <= s.len(),
        trim_end(s) == s.take(trim_end(s).len() as int),
        forall|i: int| trim_end(s).len() <= i < s.len() ==> is_space(#[trigger] s[i]),
        trim_end(s).len() > 0 ==> !is_space(trim_end(s).last()),
    decreases s.len(),
{
    if s.len() > 0 && is_space(s.last()) {
        lemma_trim_end(s.drop_last());
        let t = trim_end(s.drop_last());
        assert(t == s.take(t.len() as int));
        assert forall|i: int| t.len() <= i < s.len() implies is_space(#[trigger] s[i]) by {
            if i < s.len() - 1 {
                assert(s[i] == s.drop_last()[i]);
            }
        }
    } else {
        assert(s == s.take(s.len() as int));
    }
}

/// A cut before a suffix of whitespace, after a character that is none, is
/// the one `trim_end` makes.
pub proof fn lemma_trim_end_at(s: Seq<char>, k: int)
    requires
        0 <= k <= s.len(),
        forall|i: int| k <= i < s.len() ==> is_space(#[trigger] s[i]),
        k > 0 ==> !is_space(s[k - 1]),
    ensures
        trim_end(s) == s.take(k),
    decreases s.len(),
{
    if s.len() > 0 && is_space(s.last()) {
        let d = s.drop_last();
        assert forall|i: int| k <= i < d.len() implies is_space(#[trigger] d[i]) by {
            assert(d[i] == s[i]);
        }
        lemma_trim_end_at(d, k);
        assert(d.take(k) == s.take(k));
    } else {
        assert(k == s.len());
        assert(s == s.take(k));
    }
}

/// `word_len` counts a whitespace-free prefix, and all of it.
pub proof fn lemma_word_len(s: Seq<char>)
    ensures
        word_len(s) <= s.len(),
        forall|i: int| 0 <= i < word_len(s) ==> !is_space(#[trigger] s[i]),
        word_len(s) < s.len() ==> is_space(s[word_len(s) as int]),
    decreases s.len(),
{
    if s.len() > 0 && !is_space(s[0]) {
        let d = s.drop_first();
        lemma_word_len(d);
        assert forall|i: int| 0 <= i < word_len(s) implies !is_space(#[trigger] s[i]) by {
            if i > 0 {
                assert(s[i] == d[i - 1]);
            }
        }
    }
}

pub proof fn lemma_word_len_at(s: Seq<char>, k: int)
    requires
        0 <= k <= s.len(),
        forall|i: int| 0 <= i < k ==> !is_space(#[trigger] s[i]),
        k < s.len() ==> is_space(s[k]),
    ensures
        word_len(s) == k,
{
    lemma_word_len(s);
    let n = word_len(s) as int;
    if n < k {
        assert(!is_space(s[n]));
    } else if k < n {
        assert(!is_space(s[k]));
    }
}

pub proof fn lemma_first_of(s: Seq<char>, c: char)
    ensures
        first_of(s, c) <= s.len(),
        forall|i: int| 0 <= i < first_of(s, c) ==> #[trigger] s[i] != c,
        first_of(s, c) < s.len() ==> s[first_of(s, c) as int] == c,
    decreases s.len(),
{
    if s.len() > 0 && s[0] != c {
        let d = s.drop_first();
        lemma_first_of(d, c);
        assert forall|i: int| 0 <= i < first_of(s, c) implies #[trigger] s[i] != c by {
            if i > 0 {
                assert(s[i] == d[i - 1]);
            }
        }
    }
}

pub proof fn lemma_first_of_at(s: Seq<char>, c: char, k: int)
    requires
        0 <= k <= s.len(),
        forall|i: int| 0 <= i < k ==> #[trigger] s[i] != c,
        k < s.len() ==> s[k] == c,
    ensures
        first_of(s, c) == k,
{
    lemma_first_of(s, c);
    let n = first_of(s, c) as int;
    if n < k {
        assert(s[n] != c);
    } else if k < n {
        assert(s[k] != c);
    }
}

/// A word with whitespace or nothing behind it is the first word.
pub proof fn lemma_word_first(w: Seq<char>, x: Seq<char>)
    requires
        w.len() > 0,
        spaceless(w),
        x.len() == 0 || is_space(x[0]),
    ensures
        first_word(w + x) == w,
        after_word(w + x) == x,
{
    let s = w + x;
    assert(s[0] == w[0]);
    lemma_trim_start_at(s, 0);
    assert(s.skip(0) =~= s);
    assert forall|i: int| 0 <= i < w.len() implies !is_space(#[trigger] s[i]) by {
        assert(s[i] == w[i]);
    }
    if x.len() > 0 {
        assert(s[w.len() as int] == x[0]);
    }
    lemma_word_len_at(s, w.len() as int);
    assert(s.take(w.len() as int) =~= w);
    assert(s.skip(w.len() as int) =~= x);
}

/// Whitespace in front changes neither the first word nor what follows it.
pub proof fn lemma_space_before(c: char, s: Seq<char>)
    requires
        is_space(c),
    ensures
        trim_start(seq![c] + s) == trim_start(s),
        trim(seq![c] + s) == trim(s),
        first_word(seq![c] + s) == first_word(s),
        after_word(seq![c] + s) == after_word(s),
{
    assert((seq![c] + s).drop_first() =~= s);
}

/// The first word is whitespace-free, and what follows it is empty or begins
/// with whitespace.
pub proof fn lemma_first_word(s: Seq<char>)
    ensures
        spaceless(first_word(s)),
        after_word(s).len() == 0 || is_space(after_word(s)[0]),
        after_word(s).len() + first_word(s).len() <= s.len(),
        trim_start(s) == first_word(s) + after_word(s),
        first_word(s).len() == 0 ==> trim_start(s).len() == 0,
        s == s.take(s.len() - trim_start(s).len()) + first_word(s) + after_word(s),
{
    lemma_trim_start(s);
    let t = trim_start(s);
    lemma_word_len(t);
    let n = word_len(t) as int;
    assert forall|i: int| 0 <= i < t.take(n).len() implies !is_space(#[trigger] t.take(n)[i]) by {
        assert(t.take(n)[i] == t[i]);
    }
    if n < t.len() {
        assert(t.skip(n)[0] == t[n]);
    }
    assert(t =~= t.take(n) + t.skip(n));
    assert(s =~= s.take(s.len() - t.len()) + t);
    assert(s =~= s.take(s.len() - t.len()) + t.take(n) + t.skip(n));
}

/// Trimmed text is left alone by trimming.
pub proof fn lemma_trim_twice(s: Seq<char>)
    ensures
        trim(trim(s)) == trim(s),
        trim(s).len() > 0 ==> !is_space(trim(s)[0]) && !is_space(trim(s).last()),
        trim_start(trim(s)) == trim(s),
{
    lemma_trim_start(s);
    let t = trim_start(s);
    lemma_trim_end(t);
    let u = trim_end(t);
    if u.len() > 0 {
        assert(u[0] == t[0]);
    }
    lemma_trim_start_at(u, 0);
    assert(u.skip(0) =~= u);
    lemma_trim_end_at(u, u.len() as int);
    assert(u.take(u.len() as int) =~= u);
}

/// Text whose ends are not whitespace is left alone by trimming.
pub proof fn lemma_trim_none(s: Seq<char>)
    requires
        s.len() > 0 ==> !is_space(s[0]) && !is_space(s.last()),
    ensures
        trim_start(s) == s,
        trim(s) == s,
{
    lemma_trim_start_at(s, 0);
    assert(s.skip(0) =~= s);
    lemma_trim_end_at(s, s.len() as int);
    assert(s.take(s.len() as int) =~= s);
}

/// Text that ends a line can be read line by line before what follows it.
pub proof fn lemma_lines_concat(a: Seq<char>, b: Seq<char>)
    requires
        a.len() == 0 || a.last() == '\n',
    ensures
        lines(a + b) == lines(a) + lines(b),
    decreases a.len(),
{
    if a.len() == 0 {
        assert(a + b =~= b);
        assert(lines(a) + lines(b) =~= lines(b));
    } else {
        lemma_first_of(a, '\n');
        let n = first_of(a, '\n') as int;
        if n == a.len() {
            assert(a[a.len() - 1] != '\n');
        }
        let s = a + b;
        assert forall|i: int| 0 <= i < n implies #[trigger] s[i] != '\n' by {
            assert(s[i] == a[i]);
        }
        assert(s[n] == a[n]);
        lemma_first_of_at(s, '\n', n);
        let rest = a.skip(n + 1);
        assert(s.take(n) =~= a.take(n));
        assert(s.skip(n + 1) =~= rest + b);
        if rest.len() > 0 {
            assert(rest.last() == a.last());
        }
        lemma_lines_concat(rest, b);
        assert(lines(s) =~= lines(a) + lines(b));
    }
}

/// A line with no line feed in it, ended by one, is one line.
pub proof fn lemma_lines_one(l: Seq<char>)
    requires
        !l.contains('\n'),
    ensures
        lines(l + seq!['\n']) == seq![chomp(l)],
{
    let s = l + seq!['\n'];
    let n = l.len() as int;
    assert forall|i: int| 0 <= i < n implies #[trigger] s[i] != '\n' by {
        assert(s[i] == l[i]);
    }
    lemma_first_of_at(s, '\n', n);
    assert(s.take(n) =~= l);
    assert(s.skip(n + 1) =~= Seq::<char>::empty());
    assert(lines(s.skip(n + 1)) =~= Seq::<Seq<char>>::empty());
    assert(lines(s) =~= seq![chomp(l)]);
}

pub open spec fn chomped(ls: Seq<Seq<char>>) -> Seq<Seq<char>> {
    Seq::new(ls.len(), |i: int| chomp(ls[i]))
}

/// Lines that are written are read back, but for a carriage return at the end.
pub proof fn lemma_lines_unlines(ls: Seq<Seq<char>>)
    requires
        forall|i: int| 0 <= i < ls.len() ==> !(#[trigger] ls[i]).contains('\n'),
    ensures
        lines(unlines(ls)) == chomped(ls),
        unlines(ls).len() == 0 || unlines(ls).last() == '\n',
    decreases ls.len(),
{
    if ls.len() == 0 {
        assert(lines(unlines(ls)) =~= chomped(ls));
    } else {
        let front = ls.drop_last();
        let l = ls.last();
        lemma_lines_unlines(front);
        let a = unlines(front);
        let b = l + seq!['\n'];
        lemma_lines_concat(a, b);
        lemma_lines_one(l);
        assert(a + l + seq!['\n'] =~= a + b);
        assert(chomped(front) + seq![chomp(l)] =~= chomped(ls));
    }
}

/// Writing more lines adds to what is written.
pub proof fn lemma_unlines_concat(a: Seq<Seq<char>>, b: Seq<Seq<char>>)
    ensures
        unlines(a + b) == unlines(a) + unlines(b),
    decreases b.len(),
{
    if b.len() == 0 {
        assert(a + b =~= a);
        assert(unlines(a) + unlines(b) =~= unlines(a));
    } else {
        lemma_unlines_concat(a, b.drop_last());
        assert((a + b).drop_last() =~= a + b.drop_last());
        assert(unlines(a + b) =~= unlines(a) + unlines(b));
    }
}

/// No line has a line feed in it.
pub proof fn lemma_lines_have_no_line_feed(s: Seq<char>)
    ensures
        forall|i: int| 0 <= i < lines(s).len() ==> !(#[trigger] lines(s)[i]).contains('\n'),
    decreases s.len(),
{
    lemma_first_of(s, '\n');
    let n = first_of(s, '\n') as int;
    if s.len() == 0 {
    } else if n >= s.len() {
        assert(lines(s)[0] == s);
    } else {
        lemma_lines_have_no_line_feed(s.skip(n + 1));
        let l = chomp(s.take(n));
        assert forall|i: int| 0 <= i < l.len() implies #[trigger] l[i] != '\n' by {
            assert(l[i] == s[i]);
        }
        assert forall|i: int| 0 <= i < lines(s).len() implies !(#[trigger] lines(s)[i]).contains(
            '\n',
        ) by {
            if i > 0 {
                assert(lines(s)[i] == lines(s.skip(n + 1))[i - 1]);
            }
        }
    }
}

/// Whitespace at the end changes neither the first word nor, but for itself,
/// what follows it.
pub proof fn lemma_space_behind(s: Seq<char>, c: char)
    requires
        is_space(c),
    ensures
        first_word(s.push(c)) == first_word(s),
        after_word(s.push(c)) == after_word(s) || after_word(s.push(c)) == after_word(s).push(c),
        trim(s.push(c)) == trim(s),
{
    let u = s.push(c);
    lemma_trim_start(s);
    let t = trim_start(s);
    let k = s.len() - t.len();
    assert forall|i: int| 0 <= i < k implies is_space(#[trigger] u[i]) by {
        assert(u[i] == s[i]);
    }
    if t.len() == 0 {
        assert(u[s.len() as int] == c);
        lemma_trim_start_at(u, u.len() as int);
        assert(u.skip(u.len() as int) =~= t);
    } else {
        assert(u[k] == s[k] && s[k] == t[0]);
        lemma_trim_start_at(u, k);
        let v = t.push(c);
        assert(u.skip(k) =~= v);
        lemma_word_len(t);
        let n = word_len(t) as int;
        assert forall|i: int| 0 <= i < n implies !is_space(#[trigger] v[i]) by {
            assert(v[i] == t[i]);
        }
        if n < t.len() {
            assert(v[n] == t[n]);
        } else {
            assert(v[n] == c);
        }
        lemma_word_len_at(v, n);
        assert(v.take(n) =~= t.take(n));
        assert(v.skip(n) =~= t.skip(n).push(c));
        assert(v.drop_last() =~= t);
    }
}

/// What is not in a text is in no piece of it.
pub proof fn lemma_pieces_hold_nothing_new(s: Seq<char>, c: char)
    requires
        !s.contains(c),
    ensures
        !trim(s).contains(c),
        !after_word(s).contains(c),
        !first_word(s).contains(c),
{
    lemma_trim_start(s);
    let t = trim_start(s);
    let k = s.len() - t.len();
    assert forall|i: int| 0 <= i < t.len() implies #[trigger] t[i] != c by {
        assert(t[i] == s[i + k]);
    }
    lemma_trim_end(t);
    assert forall|i: int| 0 <= i < trim(s).len() implies #[trigger] trim(s)[i] != c by {
        assert(trim(s)[i] == t[i]);
    }
    lemma_word_len(t);
    let n = word_len(t) as int;
    assert forall|i: int| 0 <= i < after_word(s).len() implies #[trigger] after_word(s)[i] != c by {
        assert(after_word(s)[i] == t[i + n]);
    }
    assert forall|i: int| 0 <= i < first_word(s).len() implies #[trigger] first_word(s)[i] != c by {
        assert(first_word(s)[i] == t[i]);
    }
}

/// What stands in the middle of a text occurs in it.
pub proof fn lemma_has_middle(a: Seq<char>, p: Seq<char>, b: Seq<char>)
    ensures
        contains(a + p + b, p),
{
    let s = a + p + b;
    assert(s.skip(a.len() as int).take(p.len() as int) =~= p);
    assert(starts_with(s.skip(a.len() as int), p));
}

/// What follows the words in front is in a text, however it is put together.
pub proof fn lemma_has_command(
    front: Seq<char>,
    lead: Seq<char>,
    c: Seq<char>,
    a: Seq<char>,
    end: Seq<char>,
)
    ensures
        contains(front + (lead + c) + a + end, c + a + end),
{
    lemma_has_middle(front + lead, c + a + end, Seq::empty());
    lemma_command_apart(front, lead, c, a, end);
}

proof fn lemma_command_apart(
    front: Seq<char>,
    lead: Seq<char>,
    c: Seq<char>,
    a: Seq<char>,
    end: Seq<char>,
)
    ensures
        front + (lead + c) + a + end == (front + lead) + (c + a + end) + Seq::<char>::empty(),
{
    assert(front + (lead + c) + a + end =~= (front + lead) + (c + a + end)
        + Seq::<char>::empty());
}

// ---- what words, lines and parts are ---------------------------------------------

/// The words of two texts with whitespace between them are those of the one
/// and those of the other; a text without whitespace is one word, and
/// whitespace alone is none.
pub proof fn law_words_are_what_whitespace_separates(a: Seq<char>, c: char, b: Seq<char>)
    requires
        is_space(c),
    ensures
        words(a.push(c) + b) == words(a) + words(b),
        a.len() > 0 && spaceless(a) ==> words(a) == seq![a],
        words(Seq::empty()) == Seq::<Seq<char>>::empty(),
        words(seq![c]) == Seq::<Seq<char>>::empty(),
    decreases a.len(),
{
    let none: Seq<char> = Seq::empty();
    assert(first_word(none).len() == 0);
    assert(words(none) =~= Seq::<Seq<char>>::empty());
    lemma_space_before(c, none);
    assert(seq![c] + none =~= seq![c]);
    assert(words(seq![c]) =~= Seq::<Seq<char>>::empty());
    if a.len() > 0 && spaceless(a) {
        lemma_word_first(a, none);
        assert(a + none =~= a);
        assert(words(a) =~= seq![a]);
    }
    let all = a.push(c) + b;
    if a.len() == 0 {
        lemma_space_before(c, b);
        assert(all =~= seq![c] + b);
        assert(words(all) =~= words(b));
        assert(words(a) + words(b) =~= words(b));
    } else if is_space(a[0]) {
        let d = a.drop_first();
        law_words_are_what_whitespace_separates(d, c, b);
        lemma_space_before(a[0], d);
        lemma_space_before(a[0], d.push(c) + b);
        assert(a =~= seq![a[0]] + d);
        assert(all =~= seq![a[0]] + (d.push(c) + b));
        assert(words(a) == words(d));
        assert(words(all) == words(d.push(c) + b));
    } else {
        lemma_first_word(a);
        lemma_trim_start_at(a, 0);
        assert(a.skip(0) =~= a);
        let w = first_word(a);
        let r = after_word(a);
        assert(a =~= w + r);
        lemma_word_len(a);
        assert(w.len() > 0);
        law_words_are_what_whitespace_separates(r, c, b);
        let x = r.push(c) + b;
        assert(x[0] == if r.len() > 0 {
            r[0]
        } else {
            c
        });
        lemma_word_first(w, x);
        assert(w + x =~= all);
        assert(words(all) == seq![w] + words(x));
        assert(seq![w] + (words(r) + words(b)) =~= (seq![w] + words(r)) + words(b));
    }
}

/// Whitespace at the end adds no word.
proof fn lemma_words_before_space(s: Seq<char>, b: Seq<char>)
    requires
        forall|i: int| 0 <= i < b.len() ==> is_space(#[trigger] b[i]),
    ensures
        words(s + b) == words(s),
    decreases b.len(),
{
    if b.len() == 0 {
        assert(s + b =~= s);
    } else {
        let d = b.drop_first();
        let none: Seq<char> = Seq::empty();
        assert forall|i: int| 0 <= i < d.len() implies is_space(#[trigger] d[i]) by {
            assert(d[i] == b[i + 1]);
        }
        law_words_are_what_whitespace_separates(s, b[0], d);
        lemma_words_before_space(none, d);
        assert(none + d =~= d);
        assert(words(s) + words(none) =~= words(s));
        assert(s + b =~= s.push(b[0]) + d);
    }
}

/// Trimming takes no word away.
pub proof fn lemma_words_of_trimmed(s: Seq<char>)
    ensures
        words(trim(s)) == words(s),
{
    lemma_trim_start(s);
    let t = trim_start(s);
    lemma_trim_end(t);
    let u = trim_end(t);
    let b = t.skip(u.len() as int);
    assert(t =~= u + b);
    assert forall|i: int| 0 <= i < b.len() implies is_space(#[trigger] b[i]) by {
        assert(b[i] == t[i + u.len()]);
    }
    lemma_words_before_space(u, b);
    lemma_trim_start_at(t, 0);
    assert(t.skip(0) =~= t);
    assert(first_word(t) == first_word(s));
    assert(after_word(t) == after_word(s));
}

/// The lines of a text are what stands before each line feed, without a
/// carriage return at its end, and what stands behind the last, where
/// anything does.
pub proof fn law_lines_are_what_line_feeds_end(l: Seq<char>, rest: Seq<char>)
    requires
        !l.contains('\n'),
    ensures
        lines(l + seq!['\n'] + rest) == seq![
            if l.len() > 0 && l.last() == '\r' {
                l.drop_last()
            } else {
                l
            },
        ] + lines(rest),
        l.len() > 0 ==> lines(l) == seq![l],
        lines(Seq::empty()) == Seq::<Seq<char>>::empty(),
{
    let s = l + seq!['\n'] + rest;
    let n = l.len() as int;
    assert forall|i: int| 0 <= i < n implies #[trigger] s[i] != '\n' by {
        assert(s[i] == l[i]);
        assert(l.contains(l[i]));
    }
    lemma_first_of_at(s, '\n', n);
    assert(s.take(n) =~= l);
    assert(s.skip(n + 1) =~= rest);
    if n > 0 {
        assert forall|i: int| 0 <= i < n implies #[trigger] l[i] != '\n' by {
            assert(l.contains(l[i]));
        }
        lemma_first_of_at(l, '\n', n);
    }
}

/// Trimming takes off the whitespace around a text and nothing else.
pub proof fn law_trimming_takes_off_what_is_around(a: Seq<char>, s: Seq<char>, b: Seq<char>)
    requires
        forall|i: int| 0 <= i < a.len() ==> is_space(#[trigger] a[i]),
        forall|i: int| 0 <= i < b.len() ==> is_space(#[trigger] b[i]),
        s.len() > 0 ==> !is_space(s[0]) && !is_space(s.last()),
    ensures
        trim(a + s + b) == s,
{
    let all = a + s + b;
    if s.len() == 0 {
        assert forall|i: int| 0 <= i < all.len() implies is_space(#[trigger] all[i]) by {
            if i < a.len() {
                assert(all[i] == a[i]);
            } else {
                assert(all[i] == b[i - a.len()]);
            }
        }
        lemma_trim_start_at(all, all.len() as int);
        assert(all.skip(all.len() as int) =~= s);
    } else {
        assert forall|i: int| 0 <= i < a.len() implies is_space(#[trigger] all[i]) by {
            assert(all[i] == a[i]);
        }
        assert(all[a.len() as int] == s[0]);
        lemma_trim_start_at(all, a.len() as int);
        let t = all.skip(a.len() as int);
        assert(t =~= s + b);
        assert forall|i: int| s.len() <= i < t.len() implies is_space(#[trigger] t[i]) by {
            assert(t[i] == b[i - s.len()]);
        }
        assert(t[s.len() - 1] == s.last());
        lemma_trim_end_at(t, s.len() as int);
        assert(t.take(s.len() as int) =~= s);
    }
}

/// A text has a part exactly if it is something, that part and something.
pub proof fn law_a_part_stands_between(s: Seq<char>, p: Seq<char>)
    ensures
        contains(s, p) <==> exists|a: Seq<char>, b: Seq<char>| s == #[trigger] (a + p + b),
        starts_with(s, p) <==> exists|b: Seq<char>| s == #[trigger] (p + b),
{
    if contains(s, p) {
        let i = choose|i: int| 0 <= i && #[trigger] starts_with(s.skip(i), p) && i <= s.len();
        let a = s.take(i);
        let b = s.skip(i + p.len());
        assert(s.skip(i).take(p.len() as int) == p);
        assert(s =~= a + s.skip(i));
        assert(s.skip(i) =~= p + b);
        assert(s =~= a + p + b);
    }
    if exists|a: Seq<char>, b: Seq<char>| s == #[trigger] (a + p + b) {
        let (a, b) = choose|a: Seq<char>, b: Seq<char>| s == #[trigger] (a + p + b);
        lemma_has_middle(a, p, b);
    }
    if starts_with(s, p) {
        assert(s =~= p + s.skip(p.len() as int));
    }
    if exists|b: Seq<char>| s == #[trigger] (p + b) {
        let b = choose|b: Seq<char>| s == #[trigger] (p + b);
        assert((p + b).take(p.len() as int) =~= p);
    }
}

/// Every piece is in the pieces joined.
pub proof fn lemma_joined_has(pieces: Seq<Seq<char>>, sep: Seq<char>, i: int)
    requires
        0 <= i < pieces.len(),
    ensures
        contains(joined(pieces, sep), pieces[i]),
    decreases pieces.len(),
{
    let none: Seq<char> = Seq::empty();
    let all = joined(pieces, sep);
    if pieces.len() == 1 {
        lemma_has_middle(none, all, none);
        assert(none + all + none =~= all);
    } else if i == pieces.len() - 1 {
        let front = joined(pieces.drop_last(), sep) + sep;
        lemma_has_middle(front, pieces[i], none);
        assert(front + pieces[i] + none =~= all);
    } else {
        let d = pieces.drop_last();
        lemma_joined_has(d, sep, i);
        lemma_contains_within(none, joined(d, sep), sep + pieces.last(), pieces[i]);
        assert(none + joined(d, sep) + (sep + pieces.last()) =~= all);
    }
}

/// What is in a part of a text is in the text.
pub proof fn lemma_contains_within(a: Seq<char>, s: Seq<char>, z: Seq<char>, b: Seq<char>)
    requires
        contains(s, b),
    ensures
        contains(a + s + z, b),
{
    let i = choose|i: int| 0 <= i && #[trigger] starts_with(s.skip(i), b) && i <= s.len();
    let t = a + s + z;
    let k = i + a.len();
    assert(s.skip(i).take(b.len() as int) == b);
    assert(t.skip(k).take(b.len() as int) =~= b) by {
        assert forall|j: int| 0 <= j < b.len() implies t.skip(k).take(b.len() as int)[j] == b[j] by {
            assert(t[k + j] == s[i + j]);
            assert(s.skip(i).take(b.len() as int)[j] == s[i + j]);
        }
    }
    assert(starts_with(t.skip(k), b));
}

// ---- reading ----------------------------------------------------------------

/// The characters of a string, one by one.
pub fn chars_of(s: &str) -> (res: Vec<char>)
    ensures
        res@ == s@,
{
    let mut out: Vec<char> = Vec::new();
    for c in it: s.chars()
        invariant
            it.seq() == s@,
            out@ == s@.take(it.index()),
    {
        out.push(c);
    }
    out
}

/// Two strings are the same characters.
pub fn same(a: &str, b: &str) -> (res: bool)
    ensures
        res == (a@ == b@),
{
    let x = a.as_bytes();
    let y = b.as_bytes();
    proof {
        encode_utf8_decode_utf8(a@);
        encode_utf8_decode_utf8(b@);
    }
    if x.len() != y.len() {
        return false;
    }
    for i in 0..x.len()
        invariant
            x@ == encode_utf8(a@),
            y@ == encode_utf8(b@),
            x@.len() == y@.len(),
            forall|j: int| 0 <= j < i ==> x@[j] == y@[j],
    {
        if x[i] != y[i] {
            return false;
        }
    }
    assert(x@ =~= y@);
    true
}

pub fn same_opt(a: &Option<String>, b: &Option<String>) -> (res: bool)
    ensures
        res == (text_opt(*a) == text_opt(*b)),
{
    match (a, b) {
        (Some(x), Some(y)) => same(x.as_str(), y.as_str()),
        (None, None) => true,
        _ => false,
    }
}

pub fn clone_opt(s: &Option<String>) -> (res: Option<String>)
    ensures
        text_opt(res) == text_opt(*s),
{
    match s {
        Some(t) => Some(t.clone()),
        None => None,
    }
}

pub fn space(c: char) -> (res: bool)
    ensures
        res == is_space(c),
{
    ('\u{9}' <= c && c <= '\u{d}') || c == '\u{20}' || c == '\u{85}' || c == '\u{a0}' || c
        == '\u{1680}' || ('\u{2000}' <= c && c <= '\u{200a}') || c == '\u{2028}' || c
        == '\u{2029}' || c == '\u{202f}' || c == '\u{205f}' || c == '\u{3000}'
}

/// The string without the whitespace around it.
pub fn trimmed(s: &str) -> (res: &str)
    ensures
        res@ == trim(s@),
{
    let cs = chars_of(s);
    let mut a: usize = 0;
    while a < cs.len() && space(cs[a])
        invariant
            a <= cs@.len(),
            forall|i: int| 0 <= i < a ==> is_space(#[trigger] cs@[i]),
        decreases cs@.len() - a,
    {
        a = a + 1;
    }
    let mut b: usize = cs.len();
    while b > a && space(cs[b - 1])
        invariant
            a <= b <= cs@.len(),
            forall|i: int| b <= i < cs@.len() ==> is_space(#[trigger] cs@[i]),
        decreases b,
    {
        b = b - 1;
    }
    proof {
        lemma_trim_start_at(s@, a as int);
        let t = s@.skip(a as int);
        assert forall|i: int| b - a <= i < t.len() implies is_space(#[trigger] t[i]) by {
            assert(t[i] == cs@[i + a]);
        }
        lemma_trim_end_at(t, b - a);
        assert(t.take(b - a) == s@.subrange(a as int, b as int));
    }
    s.substring_char(a, b)
}

/// The first word of the string and what follows it; nothing where there is
/// no word.
pub fn cut_word(s: &str) -> (res: Option<(&str, &str)>)
    ensures
        match res {
            Some((w, rest)) => {
                &&& w@ == first_word(s@)
                &&& w@.len() > 0
                &&& rest@ == after_word(s@)
            },
            None => first_word(s@).len() == 0,
        },
{
    let cs = chars_of(s);
    let mut a: usize = 0;
    while a < cs.len() && space(cs[a])
        invariant
            a <= cs@.len(),
            forall|i: int| 0 <= i < a ==> is_space(#[trigger] cs@[i]),
        decreases cs@.len() - a,
    {
        a = a + 1;
    }
    let mut b: usize = a;
    while b < cs.len() && !space(cs[b])
        invariant
            a <= b <= cs@.len(),
            forall|i: int| a <= i < b ==> !is_space(#[trigger] cs@[i]),
        decreases cs@.len() - b,
    {
        b = b + 1;
    }
    proof {
        lemma_trim_start_at(s@, a as int);
        let t = s@.skip(a as int);
        assert forall|i: int| 0 <= i < b - a implies !is_space(#[trigger] t[i]) by {
            assert(t[i] == cs@[i + a]);
        }
        lemma_word_len_at(t, b - a);
        assert(t.take(b - a) == s@.subrange(a as int, b as int));
        assert(t.skip(b - a) == s@.subrange(b as int, cs@.len() as int));
    }
    if a == b {
        None
    } else {
        Some((s.substring_char(a, b), s.substring_char(b, cs.len())))
    }
}

/// The words of the string, in order.
pub fn split_words(s: &str) -> (res: Vec<&str>)
    ensures
        slices(res@) == words(s@),
{
    let mut out: Vec<&str> = Vec::new();
    let mut rest: &str = s;
    loop
        invariant
            words(s@) == slices(out@) + words(rest@),
        ensures
            words(s@) == slices(out@),
        decreases rest@.len(),
    {
        proof {
            lemma_trim_start(rest@);
            lemma_word_len(trim_start(rest@));
        }
        match cut_word(rest) {
            Some((w, after)) => {
                let ghost before = slices(out@);
                out.push(w);
                proof {
                    assert(slices(out@) =~= before.push(w@));
                    assert(before + (seq![w@] + words(after@)) =~= before.push(w@) + words(
                        after@,
                    ));
                }
                rest = after;
            },
            None => {
                proof {
                    assert(words(rest@) =~= Seq::<Seq<char>>::empty());
                    assert(slices(out@) + words(rest@) =~= slices(out@));
                }
                break;
            },
        }
    }
    out
}

/// The lines of the text, in order.
pub fn split_lines(s: &str) -> (res: Vec<&str>)
    ensures
        slices(res@) == lines(s@),
{
    let cs = chars_of(s);
    let mut out: Vec<&str> = Vec::new();
    let mut a: usize = 0;
    proof {
        assert(s@.skip(0) =~= s@);
    }
    while a < cs.len()
        invariant
            cs@ == s@,
            a <= cs@.len(),
            lines(s@) == slices(out@) + lines(s@.skip(a as int)),
        decreases cs@.len() - a,
    {
        let ghost tail = s@.skip(a as int);
        let ghost before = slices(out@);
        let mut b: usize = a;
        while b < cs.len() && cs[b] != '\n'
            invariant
                cs@ == s@,
                a <= b <= cs@.len(),
                forall|i: int| a <= i < b ==> #[trigger] cs@[i] != '\n',
            decreases cs@.len() - b,
        {
            b = b + 1;
        }
        proof {
            assert forall|i: int| 0 <= i < b - a implies #[trigger] tail[i] != '\n' by {
                assert(tail[i] == cs@[i + a]);
            }
            lemma_first_of_at(tail, '\n', b - a);
        }
        if b == cs.len() {
            out.push(s.substring_char(a, b));
            proof {
                assert(s@.subrange(a as int, b as int) =~= tail);
                assert(slices(out@) =~= before.push(tail));
                assert(lines(s@.skip(b as int)) =~= Seq::<Seq<char>>::empty());
                assert(before + seq![tail] =~= slices(out@) + lines(s@.skip(b as int)));
            }
            a = b;
        } else {
            let e: usize = if b > a && cs[b - 1] == '\r' {
                b - 1
            } else {
                b
            };
            out.push(s.substring_char(a, e));
            proof {
                let l = s@.subrange(a as int, e as int);
                assert(l =~= chomp(tail.take(b - a)));
                assert(slices(out@) =~= before.push(l));
                assert(tail.skip(b - a + 1) =~= s@.skip(b + 1));
                assert(before + (seq![l] + lines(s@.skip(b + 1))) =~= before.push(l) + lines(
                    s@.skip(b + 1),
                ));
            }
            a = b + 1;
        }
    }
    proof {
        assert(lines(s@.skip(a as int)) =~= Seq::<Seq<char>>::empty());
        assert(slices(out@) + lines(s@.skip(a as int)) =~= slices(out@));
    }
    out
}

pub fn has_prefix(s: &str, p: &str) -> (res: bool)
    ensures
        res == starts_with(s@, p@),
{
    let cs = chars_of(s);
    let ps = chars_of(p);
    assert(cs@.skip(0) =~= cs@);
    prefix_at(&cs, 0, &ps)
}

/// The characters `ps` stand in `cs` at position `at`.
fn prefix_at(cs: &Vec<char>, at: usize, ps: &Vec<char>) -> (res: bool)
    requires
        at <= cs@.len(),
    ensures
        res == starts_with(cs@.skip(at as int), ps@),
{
    let ghost s = cs@.skip(at as int);
    let n: usize = cs.len();
    if ps.len() > n - at {
        return false;
    }
    for i in 0..ps.len()
        invariant
            s == cs@.skip(at as int),
            n == cs@.len(),
            at + ps@.len() <= n,
            forall|j: int| 0 <= j < i ==> s[j] == ps@[j],
    {
        if cs[at + i] != ps[i] {
            assert(s[i as int] != ps@[i as int]);
            assert(s.take(ps@.len() as int)[i as int] == s[i as int]);
            return false;
        }
    }
    assert(s.take(ps@.len() as int) =~= ps@);
    true
}

/// What follows the prefix, where the string has it.
pub fn without_prefix<'a>(s: &'a str, p: &str) -> (res: Option<&'a str>)
    ensures
        match res {
            Some(rest) => starts_with(s@, p@) && rest@ == s@.skip(p@.len() as int),
            None => !starts_with(s@, p@),
        },
{
    if has_prefix(s, p) {
        let n: usize = p.unicode_len();
        let m: usize = s.unicode_len();
        assert(s@.subrange(n as int, m as int) =~= s@.skip(n as int));
        Some(s.substring_char(n, m))
    } else {
        None
    }
}

pub fn has_part(s: &str, p: &str) -> (res: bool)
    ensures
        res == contains(s@, p@),
{
    let cs = chars_of(s);
    let ps = chars_of(p);
    let mut i: usize = 0;
    while i < cs.len()
        invariant
            cs@ == s@,
            ps@ == p@,
            i <= cs@.len(),
            forall|j: int| 0 <= j < i ==> !#[trigger] starts_with(s@.skip(j), p@),
        decreases cs@.len() - i,
    {
        if prefix_at(&cs, i, &ps) {
            return true;
        }
        i = i + 1;
    }
    prefix_at(&cs, i, &ps)
}

pub fn has_char(s: &str, c: char) -> (res: bool)
    ensures
        res == s@.contains(c),
{
    let cs = chars_of(s);
    for i in 0..cs.len()
        invariant
            cs@ == s@,
            forall|j: int| 0 <= j < i ==> cs@[j] != c,
    {
        if cs[i] == c {
            assert(s@[i as int] == c);
            return true;
        }
    }
    false
}

/// A character is whitespace exactly if Unicode says so, by its number.
pub proof fn law_what_whitespace_is(c: char)
    ensures
        ({
            let n = c as int;
            is_space(c) <==> 9 <= n <= 13 || n == 32 || n == 133 || n == 160 || n == 5760 || 8192
                <= n <= 8202 || n == 8232 || n == 8233 || n == 8239 || n == 8287 || n == 12288
        }),
{
}

/// A separator stands between each two pieces, and nowhere else; a line feed
/// stands behind every line.
pub proof fn law_what_stands_between_and_behind(
    pieces: Seq<Seq<char>>,
    sep: Seq<char>,
    a: Seq<char>,
)
    ensures
        joined(Seq::empty(), sep) == Seq::<char>::empty(),
        joined(seq![a], sep) == a,
        pieces.len() > 0 ==> joined(pieces.push(a), sep) == joined(pieces, sep) + sep + a,
        unlines(Seq::empty()) == Seq::<char>::empty(),
        unlines(pieces.push(a)) == unlines(pieces) + a + seq!['\n'],
{
    assert(pieces.push(a).drop_last() =~= pieces);
}

} // verus!
