//! Why verification failed.

use crate::text::{concat, copy_text};
use vstd::prelude::*;

verus! {

#[derive(Debug)]
pub enum VerifyError {
    AssertionFailed,
    InsufficientPermission,
    AbstractResourceCall,
    /// A side condition could not be proven.
    SideCondition(&'static str),
    /// An instruction that is not handled where it stands.
    Unimplemented(&'static str),
    /// What failed, and the instruction at which it did.
    AtInst { inst: String, source: Box<VerifyError> },
}

impl VerifyError {
    /// The text that describes an error.
    pub open spec fn message(self) -> Seq<char>
        decreases self,
    {
        match self {
            VerifyError::AssertionFailed => "assertion failed"@,
            VerifyError::InsufficientPermission => "insufficient permission"@,
            VerifyError::AbstractResourceCall => "call to abstract resource"@,
            VerifyError::SideCondition(what) => "side condition may not hold: "@ + what@,
            VerifyError::Unimplemented(what) => "unimplemented: "@ + what@,
            VerifyError::AtInst { inst, source } => source.message() + "\n    instruction: "@ + inst@,
        }
    }

    /// The error under the instructions that were named.
    pub open spec fn cause(self) -> VerifyError
        decreases self,
    {
        match self {
            VerifyError::AtInst { source, .. } => source.cause(),
            _ => self,
        }
    }

    /// The text that describes the error.
    pub fn text(&self) -> (r: String)
        ensures
            r@ == self.message(),
        decreases self,
    {
        match self {
            VerifyError::AssertionFailed => copy_text("assertion failed"),
            VerifyError::InsufficientPermission => copy_text("insufficient permission"),
            VerifyError::AbstractResourceCall => copy_text("call to abstract resource"),
            VerifyError::SideCondition(what) => concat("side condition may not hold: ", what),
            VerifyError::Unimplemented(what) => concat("unimplemented: ", what),
            VerifyError::AtInst { inst, source } => {
                let front = (&**source).text();
                let joint = concat(front.as_str(), "\n    instruction: ");
                concat(joint.as_str(), inst.as_str())
            },
        }
    }

    /// Names the instruction at which an error came up, unless one is named.
    pub fn with_inst(self, inst: String) -> (r: VerifyError)
        ensures
            r == (if self is AtInst {
                self
            } else {
                VerifyError::AtInst { inst, source: Box::new(self) }
            }),
    {
        match self {
            VerifyError::AtInst { inst: at, source } => VerifyError::AtInst { inst: at, source },
            e => VerifyError::AtInst { inst, source: Box::new(e) },
        }
    }

    /// The error under the instructions that were named.
    pub fn root_cause(&self) -> (r: &VerifyError)
        ensures
            *r == self.cause(),
        decreases self,
    {
        match self {
            VerifyError::AtInst { source, .. } => (&**source).root_cause(),
            _ => self,
        }
    }
}

/// Naming an instruction keeps the cause.
pub proof fn law_cause_kept(e: VerifyError, inst: String)
    ensures
        (VerifyError::AtInst { inst, source: Box::new(e) }).cause() == e.cause(),
{
    let at = VerifyError::AtInst { inst, source: Box::new(e) };
    assert(at.cause() == e.cause());
}

} // verus!
