//! aios-rs: the coordination kernel of an agent operating environment.
//!
//! The kernel mediates access to model inference, memory, key/value storage,
//! tools and context checkpoints for many agent tasks. Each subsystem is a
//! trait with an in-memory implementation; the scheduler owns the task
//! lifecycle, admission control, retries and checkpoints.
use vstd::prelude::*;

pub mod error;
pub mod memory;
pub mod context;
pub mod storage;
pub mod tool;
pub mod llm;
pub mod scheduler;
pub mod prelude;

pub use context::ContextManager;
pub use llm::{LLMAdapter, LLMRequest, LLMResponse};
pub use memory::{MemoryManager, MemoryNote, MemoryQuery, MemoryResponse};
pub use scheduler::Scheduler;
pub use storage::StorageManager;
pub use tool::ToolManager;

verus! {

/// Version of the kernel scaffold.
pub const AIOS_RS_SCAFFOLD_VERSION: &'static str = "0.0.1-alpha";

} // verus!
