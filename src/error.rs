use vstd::prelude::*;

verus! {

/// The fault taxonomy shared by every subsystem of the kernel.
#[derive(Debug, Clone, PartialEq, Eq)]
pub enum Fault {
    /// A lookup missed; not a system fault.
    NotFound,
    /// The storage engine failed, with its cause.
    StorageFault(String),
    /// The model adapter failed, with its cause.
    ModelFault(String),
    /// A tool failed: the tool's name and the cause.
    ToolFault { name: String, cause: String },
    /// The context store failed, with its cause.
    ContextFault(String),
    /// The scheduler refused a submission.
    AdmissionRejected,
}

} // verus!
