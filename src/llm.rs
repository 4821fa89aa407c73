//! Model adapter: one inference request in, one completion out.
use vstd::prelude::*;
use vstd::string::StringExecFns;
use crate::error::Fault;

verus! {

#[derive(Debug, Clone)]
pub struct LLMRequest {
    pub prompt: String,
}

#[derive(Debug, Clone)]
pub struct LLMResponse {
    pub content: String,
}

/// A backend that completes prompts. It keeps no state between calls, so a
/// success always carries the completion that the prompt alone determines.
pub trait LLMAdapter {
    /// The completion of `prompt`.
    spec fn completion(&self, prompt: Seq<char>) -> Seq<char>;

    /// Whether the backend answers every request.
    spec fn never_faults(&self) -> bool;

    fn infer(&self, request: LLMRequest) -> (r: Result<LLMResponse, Fault>)
        ensures
            self.never_faults() ==> r is Ok,
            r matches Ok(resp) ==> resp.content@ == self.completion(request.prompt@),
            r matches Err(f) ==> f is ModelFault,
    ;
}

/// What the echoing backend answers to `prompt`.
pub open spec fn echo_of(prompt: Seq<char>) -> Seq<char> {
    "echo: "@ + prompt
}

/// A backend that answers every prompt with the prompt itself, prefixed by
/// `echo: `. It never faults.
pub struct EchoLLM;

impl EchoLLM {
    /// The echo of `prompt`.
    pub fn echo(prompt: &str) -> (r: String)
        ensures
            r@ == echo_of(prompt@),
    {
        let mut s = String::from_str("echo: ");
        s.append(prompt);
        s
    }
}

impl LLMAdapter for EchoLLM {
    open spec fn completion(&self, prompt: Seq<char>) -> Seq<char> {
        echo_of(prompt)
    }

    open spec fn never_faults(&self) -> bool {
        true
    }

    fn infer(&self, request: LLMRequest) -> (r: Result<LLMResponse, Fault>)
        ensures
            r matches Ok(resp) && resp.content@ == echo_of(request.prompt@),
    {
        Ok(LLMResponse { content: EchoLLM::echo(request.prompt.as_str()) })
    }
}

} // verus!
