//! Adding to the end of a file.
//!
//! A file not ending in a newline would otherwise gain a line that is the
//! tail of the previous one, so its last line is ended first.

use crate::text::{
    chomp, first_of, lemma_first_of, lemma_first_of_at, lemma_lines_one, lines,
};
use vstd::prelude::*;
use vstd::string::StrSliceExecFns;
use vstd::utf8::{char_u32_cast, encode_scalar, encode_utf8, has_width_1_encoding};

verus! {

/// The byte that ends a line.
pub const LINE_FEED: u8 = 10;

/// What ends the last line of a text, where nothing does.
pub open spec fn line_end(tail: Seq<char>) -> Seq<char> {
    if tail.len() == 0 || tail.last() == '\n' {
        Seq::empty()
    } else {
        seq!['\n']
    }
}

/// The text with its last line ended.
pub open spec fn ended(text: Seq<char>) -> Seq<char> {
    text + line_end(text)
}

/// What is written to add `more` behind bytes, text or not.
pub open spec fn written(tail: Seq<u8>, more: Seq<char>) -> Seq<u8> {
    (if tail.len() == 0 || tail.last() == LINE_FEED {
        Seq::empty()
    } else {
        seq![LINE_FEED]
    }) + encode_utf8(more)
}

/// What is written to add `more` behind `tail`, the bytes there so far,
/// whatever they are.
pub fn append(tail: &[u8], more: &str) -> (res: Vec<u8>)
    ensures
        res@ == written(tail@, more@),
{
    let n: usize = tail.len();
    let mut out: Vec<u8> = Vec::new();
    if n > 0 && tail[n - 1] != LINE_FEED {
        out.push(LINE_FEED);
    }
    let mut bytes = more.as_bytes_vec();
    out.append(&mut bytes);
    assert(out@ =~= written(tail@, more@));
    out
}

/// The bytes of two texts, one after the other.
proof fn lemma_bytes_concat(a: Seq<char>, b: Seq<char>)
    ensures
        encode_utf8(a + b) == encode_utf8(a) + encode_utf8(b),
    decreases a.len(),
{
    if a.len() == 0 {
        assert(a + b =~= b);
        assert(encode_utf8(a) + encode_utf8(b) =~= encode_utf8(b));
    } else {
        lemma_bytes_concat(a.drop_first(), b);
        assert((a + b).drop_first() =~= a.drop_first() + b);
        assert(encode_utf8(a + b) =~= encode_utf8(a) + encode_utf8(b));
    }
}

/// A text ends in a line feed exactly if its bytes do.
proof fn lemma_last_byte(s: Seq<char>)
    requires
        s.len() > 0,
    ensures
        encode_utf8(s).len() > 0,
        encode_utf8(s).last() == LINE_FEED <==> s.last() == '\n',
{
    let c = s.last();
    let one = seq![c];
    lemma_bytes_concat(s.drop_last(), one);
    assert(s.drop_last() + one =~= s);
    assert(one.drop_first() =~= Seq::<char>::empty());
    reveal_with_fuel(encode_utf8, 2);
    let n = c as u32;
    assert(encode_utf8(one) =~= encode_scalar(n));
    assert((0x80u8 | (n & 0x3F) as u8) >= 0x80) by (bit_vector);
    char_u32_cast(c, n);
    assert(encode_utf8(s).last() == encode_scalar(n).last());
    if has_width_1_encoding(n) {
        assert((n & 0x7F) as u8 == n) by (bit_vector)
            requires
                n <= 0x7F,
        ;
    }
}

/// A file that holds a text holds, once something is added to it, that text
/// with its last line ended and what was added.
pub proof fn law_adding_to_a_text(text: Seq<char>, more: Seq<char>)
    ensures
        encode_utf8(text) + written(encode_utf8(text), more) == encode_utf8(ended(text) + more),
{
    let feed = seq!['\n'];
    assert(feed.drop_first() =~= Seq::<char>::empty());
    reveal_with_fuel(encode_utf8, 2);
    assert((10u32 & 0x7F) as u8 == 10u8) by (bit_vector);
    assert(encode_utf8(feed) =~= seq![LINE_FEED]);
    lemma_bytes_concat(ended(text), more);
    lemma_bytes_concat(text, line_end(text));
    if text.len() > 0 {
        lemma_last_byte(text);
    }
    assert(encode_utf8(text) + written(encode_utf8(text), more) =~= encode_utf8(
        ended(text) + more,
    ));
}

/// Ending the last line changes no line, but for a carriage return.
pub proof fn lemma_lines_ended(s: Seq<char>)
    requires
        s.len() > 0,
        s.last() != '\n',
    ensures
        lines(s).len() > 0,
        lines(s + seq!['\n']) == lines(s).drop_last().push(chomp(lines(s).last())),
    decreases s.len(),
{
    lemma_first_of(s, '\n');
    let n = first_of(s, '\n') as int;
    let e = s + seq!['\n'];
    if n >= s.len() {
        if s.contains('\n') {
            let i = choose|i: int| 0 <= i < s.len() && s[i] == '\n';
            assert(s[i] != '\n');
        }
        lemma_lines_one(s);
        assert(lines(s) == seq![s]);
        assert(lines(e) =~= lines(s).drop_last().push(chomp(lines(s).last())));
    } else {
        let rest = s.skip(n + 1);
        if n == s.len() - 1 {
            assert(s.last() == '\n');
        }
        assert(rest.last() == s.last());
        lemma_lines_ended(rest);
        assert forall|i: int| 0 <= i < n implies #[trigger] e[i] != '\n' by {
            assert(e[i] == s[i]);
        }
        assert(e[n] == s[n]);
        lemma_first_of_at(e, '\n', n);
        assert(e.take(n) =~= s.take(n));
        assert(e.skip(n + 1) =~= rest + seq!['\n']);
        assert(lines(e) =~= lines(s).drop_last().push(chomp(lines(s).last())));
    }
}

/// Nothing is added to a line that is there: what is written begins with a
/// line feed exactly if there are bytes and the last of them is none, and is
/// otherwise just what is added.
pub proof fn law_the_last_line_is_ended_first(tail: Seq<u8>, text: Seq<char>, more: Seq<char>)
    ensures
        tail.len() == 0 || tail.last() == 10 ==> written(tail, more) == encode_utf8(more),
        tail.len() > 0 && tail.last() != 10 ==> written(tail, more) == seq![10u8] + encode_utf8(
            more,
        ),
        text.len() == 0 || text.last() == '\n' ==> ended(text) == text,
        text.len() > 0 && text.last() != '\n' ==> ended(text) == text.push('\n'),
{
    assert(text + Seq::<char>::empty() =~= text);
    assert(Seq::<u8>::empty() + encode_utf8(more) =~= encode_utf8(more));
}

} // verus!
