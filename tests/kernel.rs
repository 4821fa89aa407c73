use aios_rs::context::{decimal_string, ContextManager, InMemoryContextManager};
use aios_rs::error::Fault;
use aios_rs::llm::{EchoLLM, LLMAdapter, LLMRequest};
use aios_rs::memory::{InMemoryMemoryManager, MemoryManager, MemoryNote, MemoryResponse};
use aios_rs::scheduler::{KernelScheduler, NoopScheduler, Scheduler, StepOutcome, TaskState, TaskTable};
use aios_rs::storage::{FsStorageManager, InMemoryStorageManager, StorageManager};
use aios_rs::tool::{NoopToolManager, ToolManager};
use aios_rs::AIOS_RS_SCAFFOLD_VERSION;

#[test]
fn version_constant_present() {
    assert_eq!(AIOS_RS_SCAFFOLD_VERSION, "0.0.1-alpha");
}

fn is_not_found(r: &MemoryResponse) -> bool {
    !r.success && r.memory_id.is_none() && r.content.is_none() && r.error.as_deref() == Some("not found")
}

#[test]
fn add_then_get_returns_content() {
    let mut m = InMemoryMemoryManager::new();
    let r = m.add_memory(MemoryNote::new("n1", "remember this"));
    assert!(r.success);
    assert_eq!(r.memory_id.as_deref(), Some("n1"));
    assert!(r.content.is_none() && r.error.is_none());
    let g = m.get_memory("n1");
    assert!(g.success);
    assert_eq!(g.content.as_deref(), Some("remember this"));
    assert!(g.memory_id.is_none());
}

#[test]
fn add_replaces_note_under_same_id() {
    let mut m = InMemoryMemoryManager::new();
    m.add_memory(MemoryNote::new("n1", "first"));
    let r = m.add_memory(MemoryNote::new("n1", "second"));
    assert!(r.success);
    assert_eq!(m.get_memory("n1").content.as_deref(), Some("second"));
}

#[test]
fn update_missing_is_not_found_but_add_succeeds() {
    let mut m = InMemoryMemoryManager::new();
    let u = m.update_memory(MemoryNote::new("ghost", "x"));
    assert!(is_not_found(&u));
    assert!(is_not_found(&m.get_memory("ghost")));
    let a = m.add_memory(MemoryNote::new("ghost", "x"));
    assert!(a.success);
    let u2 = m.update_memory(MemoryNote::new("ghost", "y"));
    assert!(u2.success);
    assert_eq!(u2.memory_id.as_deref(), Some("ghost"));
    assert_eq!(m.get_memory("ghost").content.as_deref(), Some("y"));
}

#[test]
fn remove_then_get_is_not_found() {
    let mut m = InMemoryMemoryManager::new();
    m.add_memory(MemoryNote::new("a", "1"));
    m.add_memory(MemoryNote::new("b", "2"));
    let r = m.remove_memory("a");
    assert!(r.success);
    assert_eq!(r.memory_id.as_deref(), Some("a"));
    assert!(is_not_found(&m.get_memory("a")));
    assert_eq!(m.get_memory("b").content.as_deref(), Some("2"));
    assert!(is_not_found(&m.remove_memory("a")));
}

#[test]
fn get_on_empty_store_is_not_found() {
    let m = InMemoryMemoryManager::new();
    assert!(is_not_found(&m.get_memory("")));
}

#[test]
fn note_constructors_fill_fields() {
    let n = MemoryNote::with_timestamp("id7", "body", 1234);
    assert_eq!(n.id, "id7");
    assert_eq!(n.content, "body");
    assert!(n.keywords.is_empty() && n.tags.is_empty() && n.category.is_none());
    assert_eq!(n.timestamp, 1234);
    let m = MemoryNote::new("id8", "other");
    assert_eq!(m.id, "id8");
    assert!(m.timestamp > 0);
}

#[test]
fn response_constructors() {
    let a = MemoryResponse::ok_id("x");
    assert!(a.success && a.memory_id.as_deref() == Some("x") && a.content.is_none() && a.error.is_none());
    let b = MemoryResponse::ok_content("c");
    assert!(b.success && b.content.as_deref() == Some("c") && b.memory_id.is_none() && b.error.is_none());
    let e = MemoryResponse::err("boom");
    assert!(!e.success && e.error.as_deref() == Some("boom") && e.memory_id.is_none() && e.content.is_none());
}

#[test]
fn put_then_get_returns_bytes() {
    let mut s = InMemoryStorageManager::new();
    assert_eq!(s.put("a/b", &[1, 2, 3]), Ok(()));
    assert_eq!(s.get("a/b"), Ok(Some(vec![1, 2, 3])));
    assert_eq!(s.put("a/b", &[9]), Ok(()));
    assert_eq!(s.get("a/b"), Ok(Some(vec![9])));
    assert_eq!(s.put("c", &[]), Ok(()));
    assert_eq!(s.lookup("c"), Some(vec![]));
    assert_eq!(s.lookup("a/b"), Some(vec![9]));
}

#[test]
fn get_unwritten_key_is_absent() {
    let s = InMemoryStorageManager::new();
    assert_eq!(s.get("never"), Ok(None));
    assert_eq!(s.lookup("never"), None);
}

#[test]
fn fs_object_path_joins_root_and_key() {
    let f = FsStorageManager::new("/var/aios");
    assert_eq!(f.object_path("tasks/1"), "/var/aios/tasks/1");
}

#[test]
fn context_round_trip() {
    let mut c = InMemoryContextManager::new("/tmp/ctx");
    assert_eq!(c.start(), Ok(()));
    assert_eq!(c.gen_recover(7), Ok(None));
    let loc = c.gen_snapshot(7, "X").unwrap();
    assert_eq!(loc, "/tmp/ctx/ctx_7.txt");
    assert_eq!(c.gen_recover(7), Ok(Some("X".to_string())));
    c.gen_snapshot(7, "Y").unwrap();
    assert_eq!(c.recover(7), Some("Y".to_string()));
    assert_eq!(c.recover(8), None);
    assert_eq!(c.stop(), Ok(()));
    assert_eq!(c.stop(), Ok(()));
    assert_eq!(c.recover(7), Some("Y".to_string()));
}

#[test]
fn snapshot_location_spells_pid_in_decimal() {
    let mut c = InMemoryContextManager::new("r");
    assert_eq!(c.location(0), "r/ctx_0.txt");
    assert_eq!(c.snapshot(1234567890, "z"), "r/ctx_1234567890.txt");
    assert_eq!(decimal_string(u64::MAX), "18446744073709551615");
    assert_eq!(decimal_string(10), "10");
}

#[test]
fn echo_adapter_prefixes_prompt() {
    let r = EchoLLM.infer(LLMRequest { prompt: "hello".to_string() }).unwrap();
    assert_eq!(r.content, "echo: hello");
    assert_eq!(EchoLLM::echo(""), "echo: ");
}

#[test]
fn noop_tool_echoes_input() {
    assert_eq!(NoopToolManager.invoke("grep", "x y"), Ok("tool:grep echo -> x y".to_string()));
}

#[test]
fn concurrency_bound_keeps_extra_tasks_waiting() {
    let mut t = TaskTable::new(2, 3);
    for i in 0..5u64 {
        assert_eq!(t.submit(format!("p{i}")), Ok(i));
    }
    assert_eq!(t.running(), 2);
    assert_eq!(t.status(0), Some(TaskState::Running));
    assert_eq!(t.status(1), Some(TaskState::Running));
    for i in 2..5 {
        assert_eq!(t.status(i), Some(TaskState::Submitted));
    }
    assert_eq!(t.status(5), None);
    // A finished task hands its slot to the earliest waiting one.
    assert_eq!(t.record_model_result(0, Ok("done".to_string())), StepOutcome::Checkpoint);
    t.record_checkpoint(0, Ok("loc".to_string()));
    assert_eq!(t.status(0), Some(TaskState::Completed));
    assert_eq!(t.status(2), Some(TaskState::Running));
    assert_eq!(t.status(3), Some(TaskState::Submitted));
    assert_eq!(t.running(), 2);
}

#[test]
fn model_faults_fail_task_after_retry_bound() {
    let mut t = TaskTable::new(1, 3);
    assert_eq!(t.submit("p".to_string()), Ok(0));
    assert_eq!(t.submit("q".to_string()), Ok(1));
    let fault = || Err(Fault::ModelFault("down".to_string()));
    assert_eq!(t.record_model_result(0, fault()), StepOutcome::Retry);
    assert_eq!(t.attempts(0), Some(1));
    assert_eq!(t.record_model_result(0, fault()), StepOutcome::Retry);
    assert_eq!(t.status(0), Some(TaskState::Running));
    assert_eq!(t.record_model_result(0, fault()), StepOutcome::Failed);
    assert_eq!(t.status(0), Some(TaskState::Failed));
    assert_eq!(t.attempts(0), Some(3));
    assert_eq!(t.fault(0), Some(&Fault::ModelFault("down".to_string())));
    assert_eq!(t.status(1), Some(TaskState::Running));
}

#[test]
fn answer_resets_fault_count() {
    let mut t = TaskTable::new(1, 2);
    t.submit("p".to_string()).unwrap();
    assert_eq!(t.record_model_result(0, Err(Fault::ModelFault("x".to_string()))), StepOutcome::Retry);
    assert_eq!(t.record_model_result(0, Ok("a".to_string())), StepOutcome::Checkpoint);
    assert_eq!(t.attempts(0), Some(0));
    assert_eq!(t.output(0), Some("a".to_string()));
    assert_eq!(t.fault(0), None);
}

#[test]
fn checkpoint_fault_fails_task() {
    let mut t = TaskTable::new(1, 2);
    t.submit("p".to_string()).unwrap();
    t.record_model_result(0, Ok("a".to_string()));
    t.record_checkpoint(0, Err(Fault::ContextFault("disk".to_string())));
    assert_eq!(t.status(0), Some(TaskState::Failed));
    assert_eq!(t.fault(0), Some(&Fault::ContextFault("disk".to_string())));
    assert_eq!(t.snapshot_count(0), Some(0));
}

#[test]
fn end_to_end_echo_task_completes_with_one_snapshot() {
    let mut k = KernelScheduler::new(EchoLLM, InMemoryContextManager::new("ctx"), 1, 3);
    let id = k.submit("hello").unwrap();
    assert_eq!(k.table().status(id), Some(TaskState::Running));
    assert_eq!(k.step(id), Some(StepOutcome::Completed));
    assert_eq!(k.table().status(id), Some(TaskState::Completed));
    assert_eq!(k.table().output(id), Some("echo: hello".to_string()));
    assert_eq!(k.table().snapshot_count(id), Some(1));
    assert_eq!(k.context().recover(id), Some("echo: hello".to_string()));
    assert_eq!(k.step(id), None);
}

#[test]
fn cancel_frees_slot_and_unknown_id_is_not_found() {
    let mut k = KernelScheduler::new(EchoLLM, InMemoryContextManager::new("ctx"), 1, 3);
    let a = k.submit("a").unwrap();
    let b = k.submit("b").unwrap();
    assert_eq!(k.table().status(b), Some(TaskState::Submitted));
    assert_eq!(k.cancel(a), Ok(()));
    assert_eq!(k.table().status(a), Some(TaskState::Cancelled));
    assert_eq!(k.table().status(b), Some(TaskState::Running));
    assert_eq!(k.cancel(99), Err(Fault::NotFound));
    assert_eq!(k.step(a), None);
}

#[test]
fn stop_suspends_running_tasks_and_refuses_work() {
    let mut k = KernelScheduler::new(EchoLLM, InMemoryContextManager::new("ctx"), 2, 3);
    let a = k.submit("alpha").unwrap();
    let b = k.submit("beta").unwrap();
    let c = k.submit("gamma").unwrap();
    assert_eq!(Scheduler::stop(&mut k), Ok(()));
    assert_eq!(k.table().status(a), Some(TaskState::Suspended));
    assert_eq!(k.table().status(b), Some(TaskState::Suspended));
    assert_eq!(k.table().status(c), Some(TaskState::Submitted));
    assert_eq!(k.table().snapshot_count(a), Some(1));
    assert_eq!(k.context().recover(a), Some("alpha".to_string()));
    assert_eq!(k.table().running(), 0);
    assert_eq!(k.submit("late"), Err(Fault::AdmissionRejected));
    assert_eq!(k.resume(c), Err(Fault::NotFound));
    assert_eq!(k.resume(a), Ok(()));
    assert_eq!(k.table().status(a), Some(TaskState::Submitted));
    assert_eq!(Scheduler::start(&mut k), Ok(()));
    assert_eq!(k.table().status(a), Some(TaskState::Running));
    assert_eq!(k.table().status(c), Some(TaskState::Running));
    assert_eq!(k.table().running(), 2);
    assert_eq!(k.step(a), Some(StepOutcome::Completed));
    assert_eq!(k.table().output(a), Some("echo: alpha".to_string()));
    assert_eq!(k.table().snapshot_count(a), Some(2));
}

#[test]
fn resume_without_snapshot_restarts_from_prompt() {
    let mut t = TaskTable::new(1, 2);
    t.submit("p".to_string()).unwrap();
    t.record_suspension(0, Ok("loc".to_string()));
    assert_eq!(t.status(0), Some(TaskState::Suspended));
    t.resume(0, None);
    assert_eq!(t.status(0), Some(TaskState::Running));
    assert_eq!(t.prompt(0), Some("p".to_string()));
    t.record_suspension(0, Ok("loc".to_string()));
    t.resume(0, Some("from snapshot".to_string()));
    assert_eq!(t.prompt(0), Some("from snapshot".to_string()));
    t.cancel(0).unwrap();
    assert_eq!(t.status(0), Some(TaskState::Cancelled));
    assert_eq!(t.cancel(0), Ok(()));
    assert_eq!(t.status(0), Some(TaskState::Cancelled));
}

#[test]
fn recovery_fault_fails_suspended_task() {
    let mut t = TaskTable::new(1, 2);
    t.submit("p".to_string()).unwrap();
    t.record_suspension(0, Ok("loc".to_string()));
    t.fail_suspended(0, Fault::ContextFault("gone".to_string()));
    assert_eq!(t.status(0), Some(TaskState::Failed));
    assert_eq!(t.fault(0), Some(&Fault::ContextFault("gone".to_string())));
}

#[test]
fn closed_table_refuses_submissions() {
    let mut t = TaskTable::new(1, 1);
    t.close();
    assert_eq!(t.submit("p".to_string()), Err(Fault::AdmissionRejected));
    assert_eq!(t.len(), 0);
    t.open();
    assert_eq!(t.submit("p".to_string()), Ok(0));
}

#[test]
fn zero_limit_runs_nothing() {
    let mut t = TaskTable::new(0, 1);
    assert_eq!(t.submit("p".to_string()), Ok(0));
    assert_eq!(t.status(0), Some(TaskState::Submitted));
    assert_eq!(t.running(), 0);
}

#[test]
fn noop_scheduler_lifecycle() {
    let mut s = NoopScheduler::new(
        EchoLLM,
        InMemoryMemoryManager::new(),
        InMemoryStorageManager::new(),
        NoopToolManager,
    );
    assert_eq!(s.start(), Ok(()));
    assert_eq!(s.start(), Ok(()));
    assert_eq!(s.stop(), Ok(()));
    assert_eq!(s.stop(), Ok(()));
    assert_eq!(s.memory.add_memory(MemoryNote::new("k", "v")).success, true);
}

#[test]
fn update_keeps_creation_timestamp() {
    let mut m = InMemoryMemoryManager::new();
    m.add_memory(MemoryNote::with_timestamp("n", "old", 1));
    let r = m.update_memory(MemoryNote::with_timestamp("n", "new", 2));
    assert!(r.success);
    assert_eq!(m.get_memory("n").content.as_deref(), Some("new"));
    // An add is an upsert of the whole note.
    let r2 = m.add_memory(MemoryNote::with_timestamp("n", "newer", 3));
    assert!(r2.success);
    assert_eq!(m.get_memory("n").content.as_deref(), Some("newer"));
}

#[test]
fn distinct_tasks_snapshot_apart() {
    let mut c = InMemoryContextManager::new("root");
    let l1 = c.gen_snapshot(1, "a").unwrap();
    let l2 = c.gen_snapshot(11, "b").unwrap();
    assert_ne!(l1, l2);
    assert_eq!(c.gen_recover(1), Ok(Some("a".to_string())));
    assert_eq!(c.gen_recover(11), Ok(Some("b".to_string())));
}

#[test]
fn echo_is_a_function_of_the_prompt() {
    let a = EchoLLM.infer(LLMRequest { prompt: "same".to_string() }).unwrap();
    let b = EchoLLM.infer(LLMRequest { prompt: "same".to_string() }).unwrap();
    assert_eq!(a.content, b.content);
    assert_eq!(NoopToolManager.invoke("t", "i"), NoopToolManager.invoke("t", "i"));
}

#[test]
fn stop_and_start_are_idempotent() {
    let mut k = KernelScheduler::new(EchoLLM, InMemoryContextManager::new("ctx"), 1, 2);
    let a = k.submit("a").unwrap();
    assert_eq!(Scheduler::start(&mut k), Ok(()));
    assert_eq!(k.table().status(a), Some(TaskState::Running));
    assert_eq!(Scheduler::stop(&mut k), Ok(()));
    assert_eq!(Scheduler::stop(&mut k), Ok(()));
    assert_eq!(k.table().status(a), Some(TaskState::Suspended));
    assert_eq!(k.table().snapshot_count(a), Some(1));
}

#[test]
fn into_parts_hands_back_the_store() {
    let mut k = KernelScheduler::new(EchoLLM, InMemoryContextManager::new("ctx"), 1, 2);
    let id = k.submit("hello").unwrap();
    k.step(id);
    let (_, contexts, table) = k.into_parts();
    assert_eq!(contexts.recover(id), Some("echo: hello".to_string()));
    assert_eq!(table.len(), 1);
}
