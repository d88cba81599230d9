//! How an inference session is set up: how many threads it gets and which
//! execution providers are tried, in which order.
//!
//! Opening a session loads the inference runtime and probes the hardware, so
//! it is left to the caller. What is decided here is what the caller then
//! asks the runtime for.

use vstd::prelude::*;

verus! {

/// The kind of system that the session runs on.
#[derive(Clone, Copy, Debug, PartialEq, Eq, Structural)]
pub enum Platform {
    Android,
    /// macOS or iOS.
    Apple,
    Windows,
    Linux,
    Other,
}

/// A backend that can run a model.
#[derive(Clone, Copy, Debug, PartialEq, Eq, Structural)]
pub enum ExecutionProvider {
    Nnapi,
    CoreMl,
    Cuda,
    DirectMl,
    TensorRt,
    Cpu,
}

/// How far the runtime may rewrite the graph of a model.
#[derive(Clone, Copy, Debug, PartialEq, Eq, Structural)]
pub enum OptimizationLevel {
    Disabled,
    Basic,
    Extended,
    All,
}

/// What a session is opened with.
pub struct SessionOptions {
    /// Threads that run independent nodes of the graph side by side.
    pub inter_threads: usize,
    /// Threads that share the work within one node.
    pub intra_threads: usize,
    pub optimization: OptimizationLevel,
    /// The providers to register, the preferred first.
    pub providers: Vec<ExecutionProvider>,
}

/// The providers of a platform, the preferred first: the accelerators that
/// the platform offers, then the CPU, which is always there to fall back
/// on. TensorRT is tried on Linux only, and only where it was asked for.
pub open spec fn providers_for(platform: Platform, tensorrt: bool) -> Seq<ExecutionProvider> {
    match platform {
        Platform::Android => seq![ExecutionProvider::Nnapi, ExecutionProvider::Cpu],
        Platform::Apple => seq![ExecutionProvider::CoreMl, ExecutionProvider::Cpu],
        Platform::Windows => seq![
            ExecutionProvider::Cuda,
            ExecutionProvider::DirectMl,
            ExecutionProvider::Cpu,
        ],
        Platform::Linux => if tensorrt {
            seq![ExecutionProvider::Cuda, ExecutionProvider::TensorRt, ExecutionProvider::Cpu]
        } else {
            seq![ExecutionProvider::Cuda, ExecutionProvider::Cpu]
        },
        Platform::Other => seq![ExecutionProvider::Cpu],
    }
}

/// The providers to register on `platform`, the preferred first.
pub fn execution_providers(platform: Platform, tensorrt: bool) -> (r: Vec<ExecutionProvider>)
    ensures
        r@ == providers_for(platform, tensorrt),
{
    let mut providers: Vec<ExecutionProvider> = Vec::new();
    match platform {
        Platform::Android => {
            providers.push(ExecutionProvider::Nnapi);
        },
        Platform::Apple => {
            providers.push(ExecutionProvider::CoreMl);
        },
        Platform::Windows => {
            providers.push(ExecutionProvider::Cuda);
            providers.push(ExecutionProvider::DirectMl);
        },
        Platform::Linux => {
            providers.push(ExecutionProvider::Cuda);
            if tensorrt {
                providers.push(ExecutionProvider::TensorRt);
            }
        },
        Platform::Other => {},
    }
    providers.push(ExecutionProvider::Cpu);
    assert(providers@ =~= providers_for(platform, tensorrt));
    providers
}

/// The number of threads for a machine with `cpus` processors: one for
/// each, and one where none is reported.
pub fn thread_count(cpus: usize) -> (r: usize)
    ensures
        r == (if cpus >= 1 { cpus } else { 1 }),
{
    if cpus >= 1 {
        cpus
    } else {
        1
    }
}

/// The number of processors that this process may use, as `num_cpus::get`
/// reports it. The number depends on the machine and on the limits set on
/// the process; nothing is assumed of it.
#[verifier::external_body]
fn available_cpus() -> (n: usize) {
    num_cpus::get()
}

/// The options that every session is opened with: a thread for each
/// processor, within a node and across nodes, every graph optimization, and
/// the providers of the platform.
pub fn common_session_options(platform: Platform, tensorrt: bool) -> (r: SessionOptions)
    ensures
        r.inter_threads >= 1,
        r.intra_threads == r.inter_threads,
        r.optimization == OptimizationLevel::All,
        r.providers@ == providers_for(platform, tensorrt),
{
    let threads = thread_count(available_cpus());
    SessionOptions {
        inter_threads: threads,
        intra_threads: threads,
        optimization: OptimizationLevel::All,
        providers: execution_providers(platform, tensorrt),
    }
}

} // verus!
