//! Warnings, which are failures where they are denied.

use crate::failure::Failure;
use vstd::prelude::*;
use vstd::string::StringExecFns;

verus! {

/// What a warning reads like when it is shown.
pub open spec fn warning_text(msg: Seq<char>) -> Seq<char> {
    "Warning: "@ + msg
}

/// Turns the message of a warning into the text to show, or, where warnings
/// are denied, into a failure that carries the message.
pub fn warn(msg: &str, deny_warnings: bool) -> (r: Result<String, Failure>)
    ensures
        deny_warnings ==> (r matches Err(Failure::Warning(m)) && m@ == msg@),
        !deny_warnings ==> (r matches Ok(text) && text@ == warning_text(msg@)),
{
    if deny_warnings {
        Err(Failure::Warning(msg.to_owned()))
    } else {
        let mut text = String::new();
        text.append("Warning: ");
        text.append(msg);
        assert(text@ =~= warning_text(msg@));
        Ok(text)
    }
}

} // verus!
