//! Convenience prelude re-exporting the primary traits and types.
pub use crate::context::{ContextManager, InMemoryContextManager};
pub use crate::error::Fault;
pub use crate::llm::{EchoLLM, LLMAdapter, LLMRequest, LLMResponse};
pub use crate::memory::{InMemoryMemoryManager, MemoryManager, MemoryNote, MemoryQuery, MemoryResponse};
pub use crate::scheduler::{KernelScheduler, NoopScheduler, Scheduler, StepOutcome, TaskState, TaskTable};
pub use crate::storage::{FsStorageManager, InMemoryStorageManager, StorageManager};
pub use crate::tool::{NoopToolManager, ToolManager};
