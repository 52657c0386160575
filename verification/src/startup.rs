//! The order of events at startup: whether to ask the operating system for its
//! version at all, and what to do with the answer.

use crate::gate::{admits, is_windows_11};
use vstd::prelude::*;
use vstd::utf8::{decode_utf8, valid_utf8};

verus! {

/// Why startup stops.
#[derive(Clone, Copy, Debug, PartialEq, Eq)]
pub enum Refusal {
    /// What the version query printed is no text.
    NotText,
    /// The build that the system reports is under the threshold.
    TooOld,
}

/// What startup does next.
#[derive(Clone, Copy, Debug, PartialEq, Eq)]
pub enum Step {
    /// Ask the operating system for its version line.
    QueryVersion,
    /// Hand over to the application shell.
    Bootstrap,
    /// Stop at once, before anything is shown.
    Abort(Refusal),
}

/// The step that follows the version query, by the bytes that it printed.
pub open spec fn step_for(output: Seq<u8>) -> Step {
    if !valid_utf8(output) {
        Step::Abort(Refusal::NotText)
    } else if admits(decode_utf8(output)) {
        Step::Bootstrap
    } else {
        Step::Abort(Refusal::TooOld)
    }
}

/// `String::from_utf8` of std. It gives the text that `bytes` encode where
/// they are well-formed UTF-8, and fails where they are not; the failure is
/// handed on as `None`.
#[verifier::external_body]
fn text_of(bytes: Vec<u8>) -> (text: Option<String>)
    ensures
        match text {
            Some(s) => valid_utf8(bytes@) && s@ == decode_utf8(bytes@),
            None => !valid_utf8(bytes@),
        },
{
    match String::from_utf8(bytes) {
        Ok(s) => Some(s),
        Err(_) => None,
    }
}

/// The first step: the version is asked for on a gated system only; any other
/// goes on to the application shell at once.
pub fn first_step(gated: bool) -> (step: Step)
    ensures
        gated ==> step == Step::QueryVersion,
        !gated ==> step == Step::Bootstrap,
{
    if gated {
        Step::QueryVersion
    } else {
        Step::Bootstrap
    }
}

/// The step after the version query has printed `output`: on to the
/// application shell where the output is text that is admitted, a stop for
/// any other.
pub fn step_after_query(output: Vec<u8>) -> (step: Step)
    ensures
        step == step_for(output@),
{
    match text_of(output) {
        None => Step::Abort(Refusal::NotText),
        Some(text) => {
            if is_windows_11(text.as_str()) {
                Step::Bootstrap
            } else {
                Step::Abort(Refusal::TooOld)
            }
        },
    }
}

} // verus!
