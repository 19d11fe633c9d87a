//! A minimal single-instruction on-chain program, verified.
//!
//! The crate models the lifecycle of a program with exactly one
//! instruction, `initialize`: a declared program identifier, a dispatch
//! step that routes a decoded invocation to the handler, and the handler
//! itself, which emits one greeting line and always succeeds.

use vstd::prelude::*;

pub mod base58;
pub mod program;

verus! {

use crate::base58::names_key;
use crate::program::ProgramId;

/// The base-58 text of the identifier this program is declared under.
pub open spec fn declared_id() -> Seq<char> {
    "8RT6jMFXpLXcLLNNUUbC57sro7uLJuKHYZkVGRYtzt14"@
}

/// The program identifier compiled into this crate, as base-58 text.
///
/// Every call returns the same bytes: the declaration is immutable for
/// the life of the deployed program.
pub fn id() -> (s: &'static str)
    ensures
        s@ == declared_id(),
{
    "8RT6jMFXpLXcLLNNUUbC57sro7uLJuKHYZkVGRYtzt14"
}

/// The declared identifier, validated: the host routes invocations to
/// this program under this identifier, and `dispatch` expects it.
pub fn program_id() -> (r: Option<ProgramId>)
    ensures
        r is Some <==> names_key(declared_id()),
        r matches Some(p) ==> p.wf() && p.text_view() == declared_id(),
{
    ProgramId::parse(id())
}

} // verus!
