//! Why a command did not do what it was asked, and with which exit code.

use vstd::prelude::*;

verus! {

/// A command that did not finish: what its process exits with and what is
/// said about it. Exit 1 asks for another command, 2 found nothing to do, 3
/// is a refusal.
#[derive(Debug)]
pub struct Fail {
    pub code: u8,
    pub msg: String,
}

#[verifier::ext_equal]
pub struct FailView {
    pub code: u8,
    pub msg: Seq<char>,
}

impl View for Fail {
    type V = FailView;

    open spec fn view(&self) -> FailView {
        FailView { code: self.code, msg: self.msg@ }
    }
}

pub open spec fn mistake(msg: Seq<char>) -> FailView {
    FailView { code: 1, msg }
}

pub open spec fn idle(msg: Seq<char>) -> FailView {
    FailView { code: 2, msg }
}

pub open spec fn refusal(msg: Seq<char>) -> FailView {
    FailView { code: 3, msg }
}

pub fn refused(msg: String) -> (res: Fail)
    ensures
        res@ == refusal(msg@),
{
    Fail { code: 3, msg }
}

pub fn nothing(msg: String) -> (res: Fail)
    ensures
        res@ == idle(msg@),
{
    Fail { code: 2, msg }
}

impl vstd::std_specs::convert::FromSpecImpl<String> for Fail {
    open spec fn obeys_from_spec() -> bool {
        true
    }

    open spec fn from_spec(msg: String) -> Fail {
        Fail { code: 1, msg }
    }
}

impl From<String> for Fail {
    fn from(msg: String) -> (res: Fail)
        ensures
            res@ == mistake(msg@),
    {
        Fail { code: 1, msg }
    }
}

impl vstd::std_specs::convert::FromSpecImpl<&str> for Fail {
    open spec fn obeys_from_spec() -> bool {
        false
    }

    open spec fn from_spec(msg: &str) -> Fail {
        arbitrary()
    }
}

impl From<&str> for Fail {
    fn from(msg: &str) -> (res: Fail)
        ensures
            res@ == mistake(msg@),
    {
        Fail { code: 1, msg: msg.to_string() }
    }
}

} // verus!
