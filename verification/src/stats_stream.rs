//! The decision taken on every tick of the sampling pipeline.
//!
//! The pipeline itself is a timer loop outside the library: once per interval
//! it reads the counter source and hands what it got — the text, or nothing
//! when the read failed — to [`poll_step`]. The step either yields the next
//! snapshot or the error that terminates the whole sequence: a failed read
//! and a failed parse are both fatal, no tick is silently skipped.

use vstd::prelude::*;
use crate::stats::ParseError;
use crate::stats::ParseErrorView;
use crate::stats::Stats;
use crate::stats::parse_agrees;
use crate::stats::spec_parse;

verus! {

/// Why the sampling sequence terminated: the counter source could not be
/// read, or its text did not parse.
pub enum PollErrorView {
    ReadFailed,
    Parse(ParseErrorView),
}

/// Why the sampling sequence terminated: the counter source could not be
/// read, or its text did not parse.
#[derive(Debug, PartialEq)]
pub enum PollError {
    ReadFailed,
    Parse(ParseError),
}

impl View for PollError {
    type V = PollErrorView;

    open spec fn view(&self) -> PollErrorView {
        match self {
            PollError::ReadFailed => PollErrorView::ReadFailed,
            PollError::Parse(e) => PollErrorView::Parse(e@),
        }
    }
}

/// One tick of the sampling pipeline, given what the read of the counter
/// source returned: the parsed snapshot to broadcast, or the error — failed
/// read or failed parse — that ends the sequence for good.
pub fn poll_step(read: Option<String>) -> (r: Result<Stats, PollError>)
    ensures
        match read {
            Option::None => r == Result::<Stats, PollError>::Err(PollError::ReadFailed),
            Option::Some(text) => match r {
                Result::Ok(stats) => spec_parse(text@) is Ok && stats@ == spec_parse(text@)->Ok_0,
                Result::Err(e) => spec_parse(text@) is Err && e@ == PollErrorView::Parse(
                    spec_parse(text@)->Err_0,
                ),
            },
        },
        r is Ok ==> r->Ok_0@.len() > 0,
{
    match read {
        Option::None => Result::Err(PollError::ReadFailed),
        Option::Some(text) => match Stats::parse(text.as_str()) {
            Result::Ok(stats) => Result::Ok(stats),
            Result::Err(e) => Result::Err(PollError::Parse(e)),
        },
    }
}

} // verus!
