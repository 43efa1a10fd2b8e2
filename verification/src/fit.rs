//! Models, and how they fit a machine.

use crate::binary64::Binary64;
use vstd::prelude::*;

verus! {

/// How well a model fits the memory of a machine.
#[derive(Clone, Copy, Debug, PartialEq, Eq, Structural)]
pub enum FitLevel {
    Perfect,
    Good,
    Marginal,
    TooTight,
}

/// The program that runs a model.
#[derive(Clone, Copy, Debug, PartialEq, Eq, Structural)]
pub enum InferenceRuntime {
    Mlx,
    LlamaCpp,
    Vllm,
}

/// What a model is for.
#[derive(Clone, Copy, Debug, PartialEq, Eq, Structural)]
pub enum UseCase {
    General,
    Coding,
    Reasoning,
    Chat,
    Multimodal,
    Embedding,
}

/// The column that a list of fits is ordered by.
#[derive(Clone, Copy, Debug, PartialEq, Eq, Structural)]
pub enum SortColumn {
    Score,
    Tps,
    Params,
    MemPct,
    Ctx,
    ReleaseDate,
    UseCase,
}

/// What computes on a machine.
#[derive(Clone, Copy, Debug, PartialEq, Eq, Structural)]
pub enum GpuBackend {
    Cuda,
    Rocm,
    Metal,
    CpuX86,
    CpuArm,
}

/// The hardware that decides which models can be listed at all.
#[derive(Clone, Copy, Debug, PartialEq, Eq, Structural)]
pub struct SystemSpecs {
    pub unified_memory: bool,
    pub backend: GpuBackend,
}

/// A model of the catalog.
#[derive(Clone, Debug)]
pub struct LlmModel {
    pub name: String,
    pub provider: String,
    pub parameter_count: String,
    pub use_case: String,
    /// Whether the weights exist for the MLX runtime alone.
    pub mlx_only: bool,
}

/// A model as analyzed for one machine.
#[derive(Clone, Debug)]
pub struct ModelFit {
    pub model: LlmModel,
    /// The quantization that was selected.
    pub best_quant: String,
    pub fit_level: FitLevel,
    pub runtime: InferenceRuntime,
    pub use_case: UseCase,
    /// How the use case is shown to users.
    pub use_case_label: String,
    pub score: Binary64,
    /// The estimated weights at the selected quantization, in decimal gigabytes.
    pub disk_size_gb: Binary64,
    pub effective_context_length: u32,
}

} // verus!
