//! What a command prints, and what it says about what it did.

use crate::compose::{add_line, cat2};
use crate::text::{
    law_lines_are_what_line_feeds_end, lemma_unlines_concat, lines, slices, split_lines, texts,
    unlines,
};
use vstd::prelude::*;

verus! {

/// The result of a command, for standard output, and what is said about it,
/// for standard error.
#[derive(Debug)]
pub struct Report {
    pub out: String,
    pub notes: Vec<String>,
}

#[verifier::ext_equal]
pub struct ReportView {
    pub out: Seq<char>,
    pub notes: Seq<Seq<char>>,
}

impl View for Report {
    type V = ReportView;

    open spec fn view(&self) -> ReportView {
        ReportView { out: self.out@, notes: texts(self.notes@) }
    }
}

/// Each of the lines with the program's name in front.
pub open spec fn signed(ls: Seq<Seq<char>>) -> Seq<Seq<char>> {
    Seq::new(ls.len(), |i: int| "beb-courier: "@ + ls[i])
}

/// What is written on standard error about a result: every line of `msg` with
/// the program's name in front.
pub fn note(msg: &str) -> (res: String)
    ensures
        res@ == unlines(signed(lines(msg@))),
{
    let ls = split_lines(msg);
    let ghost all = signed(lines(msg@));
    let mut out = String::new();
    for i in 0..ls.len()
        invariant
            all == signed(lines(msg@)),
            slices(ls@) == lines(msg@),
            out@ == unlines(all.take(i as int)),
    {
        assert(slices(ls@)[i as int] == ls@[i as int]@);
        add_line(&mut out, cat2("beb-courier: ", ls[i]).as_str());
        assert(all.take(i + 1).drop_last() =~= all.take(i as int));
    }
    assert(all.take(ls@.len() as int) =~= all);
    out
}

/// Everything said is said line by line, each with the program's name in
/// front and a line feed behind.
pub proof fn law_every_line_is_signed(l: Seq<char>, rest: Seq<char>)
    requires
        !l.contains('\n'),
        l.len() == 0 || l.last() != '\r',
    ensures
        unlines(signed(lines(l + seq!['\n'] + rest))) == "beb-courier: "@ + l + seq!['\n']
            + unlines(signed(lines(rest))),
        l.len() > 0 ==> unlines(signed(lines(l))) == "beb-courier: "@ + l + seq!['\n'],
{
    law_lines_are_what_line_feeds_end(l, rest);
    let one = seq!["beb-courier: "@ + l];
    let more = signed(lines(rest));
    assert(one.drop_last() =~= Seq::<Seq<char>>::empty());
    assert(unlines(one.drop_last()) =~= Seq::<char>::empty());
    assert(unlines(one) =~= "beb-courier: "@ + l + seq!['\n']);
    lemma_unlines_concat(one, more);
    assert(signed(lines(l + seq!['\n'] + rest)) =~= one + more);
    if l.len() > 0 {
        assert(signed(lines(l)) =~= one);
    }
}

} // verus!
