//! Tool invoker: runs a named action on a string input.
use vstd::prelude::*;
use vstd::string::StringExecFns;
use crate::error::Fault;

verus! {

/// A set of named tools. A success carries the output that the tool's name and
/// input determine; a failure names the tool.
pub trait ToolManager {
    /// The output of tool `name` on `input`.
    spec fn output(&self, name: Seq<char>, input: Seq<char>) -> Seq<char>;

    /// Whether every tool succeeds on every input.
    spec fn never_faults(&self) -> bool;

    fn invoke(&self, name: &str, input: &str) -> (r: Result<String, Fault>)
        ensures
            self.never_faults() ==> r is Ok,
            r matches Ok(s) ==> s@ == self.output(name@, input@),
            r matches Err(f) ==> f matches Fault::ToolFault { name: n, .. } && n@ == name@,
    ;
}

/// What the echoing tool set answers for tool `name` on `input`.
pub open spec fn tool_echo_of(name: Seq<char>, input: Seq<char>) -> Seq<char> {
    "tool:"@ + name + " echo -> "@ + input
}

/// A tool set whose every tool echoes its input, tagged with the tool's name.
/// It never faults.
pub struct NoopToolManager;

impl NoopToolManager {
    /// The echo of `input` by tool `name`.
    pub fn echo(name: &str, input: &str) -> (r: String)
        ensures
            r@ == tool_echo_of(name@, input@),
    {
        let mut s = String::from_str("tool:");
        s.append(name);
        s.append(" echo -> ");
        s.append(input);
        s
    }
}

impl ToolManager for NoopToolManager {
    open spec fn output(&self, name: Seq<char>, input: Seq<char>) -> Seq<char> {
        tool_echo_of(name, input)
    }

    open spec fn never_faults(&self) -> bool {
        true
    }

    fn invoke(&self, name: &str, input: &str) -> (r: Result<String, Fault>)
        ensures
            r matches Ok(s) && s@ == tool_echo_of(name@, input@),
    {
        Ok(NoopToolManager::echo(name, input))
    }
}

} // verus!
