//! Putting text together.

use crate::text::{joined, slices, texts};
use vstd::prelude::*;

verus! {

pub fn cat2(a: &str, b: &str) -> (res: String)
    ensures
        res@ == a@ + b@,
{
    let mut out = a.to_string();
    out.append(b);
    out
}

pub fn cat3(a: &str, b: &str, c: &str) -> (res: String)
    ensures
        res@ == a@ + b@ + c@,
{
    let mut out = a.to_string();
    out.append(b);
    out.append(c);
    out
}

pub fn cat4(a: &str, b: &str, c: &str, d: &str) -> (res: String)
    ensures
        res@ == a@ + b@ + c@ + d@,
{
    let mut out = a.to_string();
    out.append(b);
    out.append(c);
    out.append(d);
    out
}

pub fn cat5(a: &str, b: &str, c: &str, d: &str, e: &str) -> (res: String)
    ensures
        res@ == a@ + b@ + c@ + d@ + e@,
{
    let mut out = a.to_string();
    out.append(b);
    out.append(c);
    out.append(d);
    out.append(e);
    out
}

pub fn cat6(a: &str, b: &str, c: &str, d: &str, e: &str, f: &str) -> (res: String)
    ensures
        res@ == a@ + b@ + c@ + d@ + e@ + f@,
{
    let mut out = a.to_string();
    out.append(b);
    out.append(c);
    out.append(d);
    out.append(e);
    out.append(f);
    out
}

pub fn cat7(a: &str, b: &str, c: &str, d: &str, e: &str, f: &str, g: &str) -> (res: String)
    ensures
        res@ == a@ + b@ + c@ + d@ + e@ + f@ + g@,
{
    let mut out = a.to_string();
    out.append(b);
    out.append(c);
    out.append(d);
    out.append(e);
    out.append(f);
    out.append(g);
    out
}

pub fn cat8(a: &str, b: &str, c: &str, d: &str, e: &str, f: &str, g: &str, h: &str) -> (res: String)
    ensures
        res@ == a@ + b@ + c@ + d@ + e@ + f@ + g@ + h@,
{
    let mut out = a.to_string();
    out.append(b);
    out.append(c);
    out.append(d);
    out.append(e);
    out.append(f);
    out.append(g);
    out.append(h);
    out
}

pub fn cat9(
    a: &str,
    b: &str,
    c: &str,
    d: &str,
    e: &str,
    f: &str,
    g: &str,
    h: &str,
    i: &str,
) -> (res: String)
    ensures
        res@ == a@ + b@ + c@ + d@ + e@ + f@ + g@ + h@ + i@,
{
    let mut out = a.to_string();
    out.append(b);
    out.append(c);
    out.append(d);
    out.append(e);
    out.append(f);
    out.append(g);
    out.append(h);
    out.append(i);
    out
}

/// The pieces from `from` on, one after the other, `sep` between each two.
pub fn join_from(pieces: &Vec<&str>, from: usize, sep: &str) -> (res: String)
    requires
        from <= pieces@.len(),
    ensures
        res@ == joined(slices(pieces@).skip(from as int), sep@),
{
    let ghost all = slices(pieces@).skip(from as int);
    let mut out = String::new();
    let n: usize = pieces.len();
    let mut i: usize = from;
    while i < n
        invariant
            n == pieces@.len(),
            from <= i <= n,
            all == slices(pieces@).skip(from as int),
            out@ == joined(all.take(i - from), sep@),
        decreases n - i,
    {
        if i > from {
            out.append(sep);
        }
        out.append(pieces[i]);
        proof {
            let next = all.take(i + 1 - from);
            assert(next.drop_last() =~= all.take(i - from));
            assert(next.last() == pieces@[i as int]@);
            if i == from {
                assert(next[0] == pieces@[i as int]@);
                assert(out@ =~= pieces@[i as int]@);
            }
        }
        i = i + 1;
    }
    assert(all.take(n - from) =~= all);
    out
}

/// The strings one after the other, `sep` between each two.
pub fn join(pieces: &Vec<String>, sep: &str) -> (res: String)
    ensures
        res@ == joined(texts(pieces@), sep@),
{
    let ghost all = texts(pieces@);
    let mut out = String::new();
    let n: usize = pieces.len();
    for i in 0..n
        invariant
            n == pieces@.len(),
            all == texts(pieces@),
            out@ == joined(all.take(i as int), sep@),
    {
        if i > 0 {
            out.append(sep);
        }
        out.append(pieces[i].as_str());
        proof {
            let next = all.take(i + 1);
            assert(next.drop_last() =~= all.take(i as int));
            assert(next.last() == pieces@[i as int]@);
            if i == 0 {
                assert(next[0] == pieces@[i as int]@);
                assert(out@ =~= pieces@[i as int]@);
            }
        }
    }
    assert(all.take(n as int) =~= all);
    out
}

/// Adds a line to the text, ended by a line feed.
pub fn add_line(out: &mut String, l: &str)
    ensures
        final(out)@ == old(out)@ + l@ + seq!['\n'],
{
    proof {
        reveal_strlit("\n");
        assert("\n"@ =~= seq!['\n']);
    }
    out.append(l);
    out.append("\n");
}

} // verus!
