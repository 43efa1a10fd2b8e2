//! The decisions of a server that answers agents on which models fit a machine.
//!
//! Analysis, ranking and discovery are done elsewhere: the server decides which of
//! their results to list, in what order to ask for them, and what to answer.

use crate::binary64::Binary64;
use crate::fit::{
    FitLevel, GpuBackend, InferenceRuntime, LlmModel, ModelFit, SortColumn, SystemSpecs, UseCase,
};
use crate::json::{
    bool_value, compact_text, count_value, document, documents, list_value, members, names_differ,
    object_value, pretty, pretty_or_empty, text_value, to_compact, Document,
};
use crate::mcp_server_laws::positions_are_exact;
use crate::text::{
    concat3, contains_text, lower_ascii_text, lowercase, occurs_in, same_ignoring_ascii_case,
    same_text, trim, trimmed,
};
use serde_json::Value;
use vstd::prelude::*;
use vstd::string::*;

verus! {

// Requests.

/// What to recommend.
#[derive(Clone, Debug)]
pub struct RecommendModelsParams {
    /// Maximum number of models to return (default: 10)
    pub limit: Option<usize>,
    /// Filter by use case: general, coding, reasoning, chat, multimodal, embedding
    pub use_case: Option<String>,
    /// Minimum fit level: perfect, good, marginal
    pub min_fit: Option<String>,
    /// Filter by runtime: mlx, llamacpp, vllm
    pub runtime: Option<String>,
    /// Filter by license string
    pub license: Option<String>,
    /// Sort by: score, tps, params, mem, ctx, date
    pub sort: Option<String>,
}

/// What to search for.
#[derive(Clone, Debug)]
pub struct SearchModelsParams {
    /// Search query (matches model name, provider, parameters, use case)
    pub query: String,
    /// Maximum number of results to return (default: 10)
    pub limit: Option<usize>,
}

/// What to plan for.
#[derive(Clone, Debug)]
pub struct PlanHardwareParams {
    /// Model name to plan for
    pub model: String,
    /// Context window size (default: 8192)
    pub context: Option<u32>,
    /// Quantization level (e.g. Q4_K_M, Q8_0)
    pub quant: Option<String>,
    /// Target tokens per second
    pub target_tps: Option<Binary64>,
}

/// A plan to estimate.
#[derive(Clone, Debug)]
pub struct PlanRequest {
    pub context: u32,
    pub quant: Option<String>,
    pub target_tps: Option<Binary64>,
    pub kv_quant: Option<String>,
}

// The words that requests are written in.

/// What a request means by a word, whatever its case and the space around it.
pub open spec fn keyword(raw: Seq<char>) -> Seq<char> {
    lowercase(trimmed(raw))
}

/// The column that a keyword names; the score where it names none.
pub open spec fn sort_for(word: Seq<char>) -> SortColumn {
    if word == "tps"@ || word == "tokens"@ || word == "throughput"@ {
        SortColumn::Tps
    } else if word == "params"@ || word == "parameters"@ {
        SortColumn::Params
    } else if word == "mem"@ || word == "memory"@ || word == "mem_pct"@ {
        SortColumn::MemPct
    } else if word == "ctx"@ || word == "context"@ {
        SortColumn::Ctx
    } else if word == "date"@ || word == "release"@ {
        SortColumn::ReleaseDate
    } else if word == "use"@ || word == "use_case"@ {
        SortColumn::UseCase
    } else {
        SortColumn::Score
    }
}

/// The fit level that a keyword names; marginal where it names none.
pub open spec fn min_fit_for(word: Seq<char>) -> FitLevel {
    if word == "perfect"@ {
        FitLevel::Perfect
    } else if word == "good"@ {
        FitLevel::Good
    } else {
        FitLevel::Marginal
    }
}

/// The runtime that a keyword names.
pub open spec fn runtime_for(word: Seq<char>) -> Option<InferenceRuntime> {
    if word == "mlx"@ {
        Some(InferenceRuntime::Mlx)
    } else if word == "llamacpp"@ || word == "llama.cpp"@ || word == "llama_cpp"@ {
        Some(InferenceRuntime::LlamaCpp)
    } else if word == "vllm"@ {
        Some(InferenceRuntime::Vllm)
    } else {
        None
    }
}

/// The use case that a keyword names.
pub open spec fn use_case_for(word: Seq<char>) -> Option<UseCase> {
    if word == "coding"@ || word == "code"@ {
        Some(UseCase::Coding)
    } else if word == "reasoning"@ || word == "reason"@ {
        Some(UseCase::Reasoning)
    } else if word == "chat"@ {
        Some(UseCase::Chat)
    } else if word == "multimodal"@ || word == "vision"@ {
        Some(UseCase::Multimodal)
    } else if word == "embedding"@ || word == "embed"@ {
        Some(UseCase::Embedding)
    } else if word == "general"@ {
        Some(UseCase::General)
    } else {
        None
    }
}

/// The column that a request asks for; the score where it asks for none.
pub open spec fn sort_wanted(raw: Option<Seq<char>>) -> SortColumn {
    match raw {
        Some(s) => sort_for(keyword(s)),
        None => SortColumn::Score,
    }
}

/// The least fit level that a request asks for.
pub open spec fn min_fit_wanted(raw: Option<Seq<char>>) -> Option<FitLevel> {
    match raw {
        Some(s) => Some(min_fit_for(keyword(s))),
        None => None,
    }
}

/// The runtime that a request asks for; none where it names no known one.
pub open spec fn runtime_wanted(raw: Option<Seq<char>>) -> Option<InferenceRuntime> {
    match raw {
        Some(s) => runtime_for(keyword(s)),
        None => None,
    }
}

/// The use case that a request asks for; none where it names no known one.
pub open spec fn use_case_wanted(raw: Option<Seq<char>>) -> Option<UseCase> {
    match raw {
        Some(s) => use_case_for(keyword(s)),
        None => None,
    }
}

/// What an optional text says.
pub open spec fn text_of(s: Option<&str>) -> Option<Seq<char>> {
    match s {
        Some(s) => Some(s@),
        None => None,
    }
}

/// What an optional field of a request says.
pub open spec fn field_of(s: Option<String>) -> Option<Seq<char>> {
    match s {
        Some(s) => Some(s@),
        None => None,
    }
}

/// The column that a keyword names.
pub fn sort_named(word: &str) -> (r: SortColumn)
    ensures
        r == sort_for(word@),
{
    if same_text(word, "tps") || same_text(word, "tokens") || same_text(word, "throughput") {
        SortColumn::Tps
    } else if same_text(word, "params") || same_text(word, "parameters") {
        SortColumn::Params
    } else if same_text(word, "mem") || same_text(word, "memory") || same_text(word, "mem_pct") {
        SortColumn::MemPct
    } else if same_text(word, "ctx") || same_text(word, "context") {
        SortColumn::Ctx
    } else if same_text(word, "date") || same_text(word, "release") {
        SortColumn::ReleaseDate
    } else if same_text(word, "use") || same_text(word, "use_case") {
        SortColumn::UseCase
    } else {
        SortColumn::Score
    }
}

/// The fit level that a keyword names.
pub fn min_fit_named(word: &str) -> (r: FitLevel)
    ensures
        r == min_fit_for(word@),
{
    if same_text(word, "perfect") {
        FitLevel::Perfect
    } else if same_text(word, "good") {
        FitLevel::Good
    } else {
        FitLevel::Marginal
    }
}

/// The runtime that a keyword names.
pub fn runtime_named(word: &str) -> (r: Option<InferenceRuntime>)
    ensures
        r == runtime_for(word@),
{
    if same_text(word, "mlx") {
        Some(InferenceRuntime::Mlx)
    } else if same_text(word, "llamacpp") || same_text(word, "llama.cpp") || same_text(
        word,
        "llama_cpp",
    ) {
        Some(InferenceRuntime::LlamaCpp)
    } else if same_text(word, "vllm") {
        Some(InferenceRuntime::Vllm)
    } else {
        None
    }
}

/// The use case that a keyword names.
pub fn use_case_named(word: &str) -> (r: Option<UseCase>)
    ensures
        r == use_case_for(word@),
{
    if same_text(word, "coding") || same_text(word, "code") {
        Some(UseCase::Coding)
    } else if same_text(word, "reasoning") || same_text(word, "reason") {
        Some(UseCase::Reasoning)
    } else if same_text(word, "chat") {
        Some(UseCase::Chat)
    } else if same_text(word, "multimodal") || same_text(word, "vision") {
        Some(UseCase::Multimodal)
    } else if same_text(word, "embedding") || same_text(word, "embed") {
        Some(UseCase::Embedding)
    } else if same_text(word, "general") {
        Some(UseCase::General)
    } else {
        None
    }
}

/// The column to sort by.
pub fn parse_sort(raw: Option<&str>) -> (r: SortColumn)
    ensures
        r == sort_wanted(text_of(raw)),
{
    match raw {
        Some(s) => sort_named(trim(s).to_lowercase().as_str()),
        None => SortColumn::Score,
    }
}

/// The least fit level to list.
pub fn parse_min_fit(raw: Option<&str>) -> (r: Option<FitLevel>)
    ensures
        r == min_fit_wanted(text_of(raw)),
{
    match raw {
        Some(s) => Some(min_fit_named(trim(s).to_lowercase().as_str())),
        None => None,
    }
}

/// The runtime to list.
pub fn parse_runtime(raw: Option<&str>) -> (r: Option<InferenceRuntime>)
    ensures
        r == runtime_wanted(text_of(raw)),
{
    match raw {
        Some(s) => runtime_named(trim(s).to_lowercase().as_str()),
        None => None,
    }
}

/// The use case to list.
pub fn parse_use_case(raw: Option<&str>) -> (r: Option<UseCase>)
    ensures
        r == use_case_wanted(text_of(raw)),
{
    match raw {
        Some(s) => use_case_named(trim(s).to_lowercase().as_str()),
        None => None,
    }
}

/// The rank of a fit level, the best highest.
pub open spec fn fit_rank(fit: FitLevel) -> int {
    match fit {
        FitLevel::Perfect => 3,
        FitLevel::Good => 2,
        FitLevel::Marginal => 1,
        FitLevel::TooTight => 0,
    }
}

fn rank_of(fit: FitLevel) -> (r: u8)
    ensures
        r == fit_rank(fit),
{
    match fit {
        FitLevel::Perfect => 3,
        FitLevel::Good => 2,
        FitLevel::Marginal => 1,
        FitLevel::TooTight => 0,
    }
}

/// Whether a fit level is at least the minimum.
pub fn fit_at_least(actual: FitLevel, minimum: FitLevel) -> (r: bool)
    ensures
        r == (fit_rank(actual) >= fit_rank(minimum)),
{
    rank_of(actual) >= rank_of(minimum)
}

// Which models are listed.

/// Whether MLX weights can run on a machine.
pub open spec fn is_apple_silicon(specs: SystemSpecs) -> bool {
    specs.backend == GpuBackend::Metal && specs.unified_memory
}

/// Whether a machine can list a fit at all.
pub open spec fn can_list(specs: SystemSpecs, fit: ModelFit) -> bool {
    is_apple_silicon(specs) || !fit.model.mlx_only
}

/// Whether a fit is good enough: at least the minimum, or runnable without one.
pub open spec fn level_passes(fit: ModelFit, minimum: Option<FitLevel>) -> bool {
    match minimum {
        Some(minimum) => fit_rank(fit.fit_level) >= fit_rank(minimum),
        None => fit.fit_level != FitLevel::TooTight,
    }
}

/// Whether a fit passes every filter of a request, `license_allows` being what the
/// license filter says of its model.
pub open spec fn is_recommended(
    specs: SystemSpecs,
    params: RecommendModelsParams,
    fit: ModelFit,
    license_allows: bool,
) -> bool {
    &&& can_list(specs, fit)
    &&& level_passes(fit, min_fit_wanted(field_of(params.min_fit)))
    &&& match runtime_wanted(field_of(params.runtime)) {
        Some(runtime) => fit.runtime == runtime,
        None => true,
    }
    &&& match use_case_wanted(field_of(params.use_case)) {
        Some(use_case) => fit.use_case == use_case,
        None => true,
    }
    &&& params.license is Some ==> license_allows
}

/// Whether a fit answers a search: one of its texts holds the query, in any case.
pub open spec fn matches_query(fit: ModelFit, query: Seq<char>) -> bool {
    let part = lowercase(query);
    ||| occurs_in(part, lowercase(fit.model.name@))
    ||| occurs_in(part, lowercase(fit.model.provider@))
    ||| occurs_in(part, lowercase(fit.model.parameter_count@))
    ||| occurs_in(part, lowercase(fit.model.use_case@))
    ||| occurs_in(part, lowercase(fit.use_case_label@))
}

/// Whether a search finds a fit.
pub open spec fn is_found(specs: SystemSpecs, query: Seq<char>, fit: ModelFit) -> bool {
    can_list(specs, fit) && matches_query(fit, query) && fit.fit_level != FitLevel::TooTight
}

/// The positions below `n` that `keep` keeps, in order.
pub open spec fn positions(n: nat, keep: spec_fn(int) -> bool) -> Seq<usize>
    decreases n,
{
    if n == 0 {
        Seq::empty()
    } else {
        let before = positions((n - 1) as nat, keep);
        if keep(n - 1) {
            before.push((n - 1) as usize)
        } else {
            before
        }
    }
}

/// The positions of the fits that a request for recommendations lists.
pub open spec fn recommended(
    specs: SystemSpecs,
    params: RecommendModelsParams,
    fits: Seq<ModelFit>,
    license_allows: Seq<bool>,
) -> Seq<usize> {
    positions(fits.len(), |i: int| is_recommended(specs, params, fits[i], license_allows[i]))
}

/// The positions of the fits that a search lists.
pub open spec fn found(specs: SystemSpecs, query: Seq<char>, fits: Seq<ModelFit>) -> Seq<usize> {
    positions(fits.len(), |i: int| is_found(specs, query, fits[i]))
}

/// Keeping some of the positions kept is keeping those that pass both times.
proof fn lemma_positions_filter(
    n: nat,
    first: spec_fn(int) -> bool,
    both: spec_fn(int) -> bool,
    second: spec_fn(usize) -> bool,
)
    requires
        n <= usize::MAX,
        forall|i: int|
            0 <= i < n ==> #[trigger] both(i) == (first(i) && second(i as usize)),
    ensures
        positions(n, first).filter(second) == positions(n, both),
    decreases n,
{
    reveal(Seq::filter);
    if n > 0 {
        let m = (n - 1) as nat;
        lemma_positions_filter(m, first, both, second);
        assert(both(m as int) == (first(m as int) && second(m as usize)));
        let before = positions(m, first);
        if first(m as int) {
            assert(before.push(m as usize).drop_last() =~= before);
        }
    }
}

/// How many models a request wants at most.
pub open spec fn limit_wanted(limit: Option<usize>) -> usize {
    match limit {
        Some(n) => n,
        None => 10,
    }
}

/// The fits to list, by their positions among those analyzed, before they are
/// ranked and cut to the limit.
#[derive(Clone, Debug)]
pub struct Listing {
    pub positions: Vec<usize>,
    pub sort_column: SortColumn,
    pub limit: usize,
}

/// What to do about a request for a plan.
#[derive(Clone, Debug)]
pub enum PlanStep {
    /// Answer with this text: there is no such model.
    Answer(String),
    /// Estimate the plan for the model at this position.
    Estimate(usize, PlanRequest),
}

/// What the server knows of the machine it speaks for. `C` holds the parameters of the
/// calculations, which the server hands on and does not read.
#[derive(Clone, Debug)]
pub struct LlmfitMcpServer<C> {
    pub specs: SystemSpecs,
    pub models: Vec<LlmModel>,
    pub context_limit: Option<u32>,
    /// Calculation parameters implied by a hardware profile, or `None` when the
    /// server describes the machine it runs on.
    pub calc_config: Option<C>,
    pub node_name: String,
}

/// The text of an optional field.
fn as_text(s: &Option<String>) -> (r: Option<&str>)
    ensures
        text_of(r) == field_of(*s),
{
    match s {
        Some(s) => Some(s.as_str()),
        None => None,
    }
}

/// Whether the lower case of `s` holds `part`.
fn lower_contains(s: &String, part: &String) -> (r: bool)
    ensures
        r == occurs_in(part@, lowercase(s@)),
{
    contains_text(s.as_str().to_lowercase().as_str(), part.as_str())
}

/// Whether a model has a name, but for the case of ASCII letters.
pub open spec fn has_name(model: LlmModel, name: Seq<char>) -> bool {
    lower_ascii_text(model.name@) == lower_ascii_text(name)
}

/// The names of the members of one answer differ, for their lengths do.
pub proof fn lemma_member_names()
    ensures
        "node"@.len() == 4,
        "system"@.len() == 6,
        "query"@.len() == 5,
        "total_matches"@.len() == 13,
        "total_models"@.len() == 12,
        "returned_models"@.len() == 15,
        "models"@.len() == 6,
        "name"@.len() == 4,
        "installed"@.len() == 9,
        "runtime"@.len() == 7,
{
    reveal_strlit("node");
    reveal_strlit("system");
    reveal_strlit("query");
    reveal_strlit("total_matches");
    reveal_strlit("total_models");
    reveal_strlit("returned_models");
    reveal_strlit("models");
    reveal_strlit("name");
    reveal_strlit("installed");
    reveal_strlit("runtime");
}

/// What is answered where something failed.
pub open spec fn error_document(message: Seq<char>) -> Document {
    Document::Object(Map::empty().insert("error"@, Document::Text(message)))
}

/// What is said of a model that the catalog does not list.
pub open spec fn unknown_model_message(name: Seq<char>) -> Seq<char> {
    "model '"@ + name + "' not found"@
}

/// Whether `step` is what to do about a request for a plan, given the catalog.
pub open spec fn is_plan_step(
    models: Seq<LlmModel>,
    params: PlanHardwareParams,
    step: PlanStep,
) -> bool {
    match step {
        PlanStep::Answer(text) => {
            &&& forall|i: int|
                0 <= i < models.len() ==> !has_name(#[trigger] models[i], params.model@)
            &&& text@ == compact_text(error_document(unknown_model_message(params.model@)))
        },
        PlanStep::Estimate(k, request) => {
            &&& k < models.len()
            &&& has_name(models[k as int], params.model@)
            &&& forall|i: int| 0 <= i < k ==> !has_name(#[trigger] models[i], params.model@)
            &&& request.context == match params.context {
                Some(n) => n,
                None => 8192,
            }
            &&& request.quant == params.quant
            &&& request.target_tps == params.target_tps
            &&& request.kv_quant is None
        },
    }
}

/// The calculation parameters of a plan.
pub open spec fn config_of<C>(profile: Option<C>, default: C) -> C {
    match profile {
        Some(config) => config,
        None => default,
    }
}

/// What is answered of the hardware of a node.
pub open spec fn system_document(node_name: Seq<char>, system: Value) -> Document {
    Document::Object(
        Map::empty().insert("node"@, Document::Text(node_name)).insert(
            "system"@,
            document(system),
        ),
    )
}

impl<C> LlmfitMcpServer<C> {
    /// A server for a machine, with the models of a catalog.
    pub fn new(
        specs: SystemSpecs,
        models: Vec<LlmModel>,
        context_limit: Option<u32>,
        calc_config: Option<C>,
        node_name: String,
    ) -> (r: LlmfitMcpServer<C>)
        ensures
            r.specs == specs,
            r.models == models,
            r.context_limit == context_limit,
            r.calc_config == calc_config,
            r.node_name == node_name,
    {
        LlmfitMcpServer { specs, models, context_limit, calc_config, node_name }
    }

    /// Whether MLX weights can run on this machine.
    fn runs_mlx(&self) -> (r: bool)
        ensures
            r == is_apple_silicon(self.specs),
    {
        self.specs.backend == GpuBackend::Metal && self.specs.unified_memory
    }

    /// Which of the analyzed fits the machine can list.
    pub fn analyze_all(&self, analyzed: &Vec<ModelFit>) -> (r: Vec<usize>)
        ensures
            r@ == positions(
                analyzed@.len(),
                |i: int| can_list(self.specs, analyzed@[i]),
            ),
    {
        let ghost keep = |i: int| can_list(self.specs, analyzed@[i]);
        let runs_mlx = self.runs_mlx();
        let mut kept: Vec<usize> = Vec::new();
        let mut i: usize = 0;
        while i < analyzed.len()
            invariant
                i <= analyzed@.len(),
                runs_mlx == is_apple_silicon(self.specs),
                keep == (|i: int| can_list(self.specs, analyzed@[i])),
                kept@ == positions(i as nat, keep),
            decreases analyzed.len() - i,
        {
            if runs_mlx || !analyzed[i].model.mlx_only {
                kept.push(i);
            }
            i += 1;
        }
        kept
    }

    /// Which of the analyzed fits to recommend. `license_allows` says of each what
    /// the license filter, if there is one, says of its model.
    pub fn recommend_models(
        &self,
        params: &RecommendModelsParams,
        analyzed: &Vec<ModelFit>,
        license_allows: &Vec<bool>,
    ) -> (r: Listing)
        requires
            params.license is Some ==> license_allows@.len() == analyzed@.len(),
        ensures
            r.positions@ == positions(
                analyzed@.len(),
                |i: int| is_recommended(self.specs, *params, analyzed@[i], license_allows@[i]),
            ),
            r.positions@ == recommended(self.specs, *params, analyzed@, license_allows@),
            r.sort_column == sort_wanted(field_of(params.sort)),
            r.limit == limit_wanted(params.limit),
    {
        let limit: usize = match params.limit {
            Some(n) => n,
            None => 10,
        };
        let sort_column = parse_sort(as_text(&params.sort));
        let min_fit = parse_min_fit(as_text(&params.min_fit));
        let runtime_filter = parse_runtime(as_text(&params.runtime));
        let use_case_filter = parse_use_case(as_text(&params.use_case));
        let listed = self.analyze_all(analyzed);
        let ghost first = |i: int| can_list(self.specs, analyzed@[i]);
        let ghost both = |i: int|
            is_recommended(self.specs, *params, analyzed@[i], license_allows@[i]);
        let ghost second = |i: usize| both(i as int);
        let mut kept: Vec<usize> = Vec::new();
        let mut k: usize = 0;
        proof {
            reveal(Seq::filter);
            assert(analyzed@.len() == analyzed.len());
            positions_are_exact(analyzed@.len(), first);
            lemma_positions_filter(analyzed@.len(), first, both, second);
            assert(listed@.take(0).filter(second) =~= Seq::empty());
        }
        while k < listed.len()
            invariant
                k <= listed@.len(),
                params.license is Some ==> license_allows@.len() == analyzed@.len(),
                min_fit == min_fit_wanted(field_of(params.min_fit)),
                runtime_filter == runtime_wanted(field_of(params.runtime)),
                use_case_filter == use_case_wanted(field_of(params.use_case)),
                both == (|i: int|
                    is_recommended(self.specs, *params, analyzed@[i], license_allows@[i])),
                second == (|i: usize| both(i as int)),
                forall|j: int|
                    0 <= j < listed@.len() ==> (#[trigger] listed@[j]) < analyzed@.len()
                        && can_list(self.specs, analyzed@[listed@[j] as int]),
                kept@ == listed@.take(k as int).filter(second),
            decreases listed.len() - k,
        {
            let i: usize = listed[k];
            let fit = &analyzed[i];
            let good_enough = match min_fit {
                Some(minimum) => fit_at_least(fit.fit_level, minimum),
                None => fit.fit_level != FitLevel::TooTight,
            };
            let runs = match runtime_filter {
                Some(runtime) => fit.runtime == runtime,
                None => true,
            };
            let serves = match use_case_filter {
                Some(use_case) => fit.use_case == use_case,
                None => true,
            };
            let licensed = match params.license {
                Some(_) => license_allows[i],
                None => true,
            };
            proof {
                reveal(Seq::filter);
                assert(listed@.take(k + 1).drop_last() =~= listed@.take(k as int));
            }
            if good_enough && runs && serves && licensed {
                kept.push(i);
            }
            k += 1;
        }
        assert(listed@.take(k as int) =~= listed@);
        Listing { positions: kept, sort_column, limit }
    }

    /// Which of the analyzed fits a search finds.
    pub fn search_models(&self, params: &SearchModelsParams, analyzed: &Vec<ModelFit>) -> (r:
        Listing)
        ensures
            r.positions@ == positions(
                analyzed@.len(),
                |i: int| is_found(self.specs, params.query@, analyzed@[i]),
            ),
            r.positions@ == found(self.specs, params.query@, analyzed@),
            r.sort_column == SortColumn::Score,
            r.limit == limit_wanted(params.limit),
    {
        let limit: usize = match params.limit {
            Some(n) => n,
            None => 10,
        };
        let query = params.query.as_str().to_lowercase();
        let listed = self.analyze_all(analyzed);
        let ghost first = |i: int| can_list(self.specs, analyzed@[i]);
        let ghost both = |i: int| is_found(self.specs, params.query@, analyzed@[i]);
        let ghost second = |i: usize| both(i as int);
        let mut kept: Vec<usize> = Vec::new();
        let mut k: usize = 0;
        proof {
            reveal(Seq::filter);
            assert(analyzed@.len() == analyzed.len());
            positions_are_exact(analyzed@.len(), first);
            lemma_positions_filter(analyzed@.len(), first, both, second);
            assert(listed@.take(0).filter(second) =~= Seq::empty());
        }
        while k < listed.len()
            invariant
                k <= listed@.len(),
                query@ == lowercase(params.query@),
                both == (|i: int| is_found(self.specs, params.query@, analyzed@[i])),
                second == (|i: usize| both(i as int)),
                forall|j: int|
                    0 <= j < listed@.len() ==> (#[trigger] listed@[j]) < analyzed@.len()
                        && can_list(self.specs, analyzed@[listed@[j] as int]),
                kept@ == listed@.take(k as int).filter(second),
            decreases listed.len() - k,
        {
            let i: usize = listed[k];
            let fit = &analyzed[i];
            let matched = lower_contains(&fit.model.name, &query) || lower_contains(
                &fit.model.provider,
                &query,
            ) || lower_contains(&fit.model.parameter_count, &query) || lower_contains(
                &fit.model.use_case,
                &query,
            ) || lower_contains(&fit.use_case_label, &query);
            proof {
                reveal(Seq::filter);
                assert(listed@.take(k + 1).drop_last() =~= listed@.take(k as int));
            }
            if matched && fit.fit_level != FitLevel::TooTight {
                kept.push(i);
            }
            k += 1;
        }
        assert(listed@.take(k as int) =~= listed@);
        Listing { positions: kept, sort_column: SortColumn::Score, limit }
    }

    /// The plan to estimate, or the answer where the catalog has no such model.
    pub fn plan_hardware(&self, params: &PlanHardwareParams) -> (r: PlanStep)
        ensures
            is_plan_step(self.models@, *params, r),
            match r {
                PlanStep::Answer(text) => {
                    &&& forall|i: int|
                        0 <= i < self.models@.len() ==> !has_name(
                            #[trigger] self.models@[i],
                            params.model@,
                        )
                    &&& text@ == compact_text(
                        error_document(unknown_model_message(params.model@)),
                    )
                },
                PlanStep::Estimate(k, request) => {
                    &&& k < self.models@.len()
                    &&& has_name(self.models@[k as int], params.model@)
                    &&& forall|i: int|
                        0 <= i < k ==> !has_name(#[trigger] self.models@[i], params.model@)
                    &&& request.context == match params.context {
                        Some(n) => n,
                        None => 8192,
                    }
                    &&& request.quant == params.quant
                    &&& request.target_tps == params.target_tps
                    &&& request.kv_quant is None
                },
            },
    {
        let mut k: usize = 0;
        while k < self.models.len()
            invariant
                k <= self.models@.len(),
                forall|i: int|
                    0 <= i < k ==> !has_name(#[trigger] self.models@[i], params.model@),
            decreases self.models.len() - k,
        {
            if same_ignoring_ascii_case(self.models[k].name.as_str(), params.model.as_str()) {
                let context: u32 = match params.context {
                    Some(n) => n,
                    None => 8192,
                };
                let quant = match &params.quant {
                    Some(quant) => Some(quant.clone()),
                    None => None,
                };
                return PlanStep::Estimate(
                    k,
                    PlanRequest {
                        context,
                        quant,
                        target_tps: params.target_tps,
                        kv_quant: None,
                    },
                );
            }
            k += 1;
        }
        PlanStep::Answer(
            error_answer(concat3("model '", params.model.as_str(), "' not found").as_str()),
        )
    }

    /// The calculation parameters of a plan: those of the profile, or the default ones.
    pub fn plan_config<'a>(&'a self, default: &'a C) -> (r: &'a C)
        ensures
            *r == match self.calc_config {
                Some(config) => config,
                None => *default,
            },
            *r == config_of(self.calc_config, *default),
    {
        match &self.calc_config {
            Some(config) => config,
            None => default,
        }
    }

    /// The hardware of this node, `system` being what describes the machine.
    pub fn get_system_specs(&self, system: Value) -> (r: String)
        ensures
            r@ == pretty_or_empty(
                Document::Object(
                    Map::empty().insert("node"@, Document::Text(self.node_name@)).insert(
                        "system"@,
                        document(system),
                    ),
                ),
            ),
            r@ == pretty_or_empty(system_document(self.node_name@, system)),
    {
        proof {
            lemma_member_names();
        }
        let entries = with_member(Vec::new(), "node", text_value(self.node_name.as_str()));
        let entries = with_member(entries, "system", system);
        pretty(&object_value(entries))
    }
}

// Answers.

/// The members of an object, with one more.
fn with_member(entries: Vec<(String, Value)>, name: &str, value: Value) -> (r: Vec<
    (String, Value),
>)
    requires
        names_differ(entries@),
        forall|i: int| 0 <= i < entries@.len() ==> (#[trigger] entries@[i]).0@ != name@,
    ensures
        members(r@) == members(entries@).insert(name@, document(value)),
        names_differ(r@),
        r@.len() == entries@.len() + 1,
        r@[entries@.len() as int].0@ == name@,
        forall|i: int| 0 <= i < entries@.len() ==> #[trigger] r@[i] == entries@[i],
{
    let mut entries = entries;
    let ghost before = entries@;
    entries.push((name.to_string(), value));
    assert(entries@.drop_last() =~= before);
    entries
}

/// The answer where something failed.
fn error_answer(message: &str) -> (r: String)
    ensures
        r@ == compact_text(error_document(message@)),
{
    to_compact(&object_value(with_member(Vec::new(), "error", text_value(message))))
}

/// What is answered to a request for a plan: the estimate over several lines, or the
/// error on one.
pub open spec fn plan_text(outcome: Result<Value, String>) -> Seq<char> {
    match outcome {
        Ok(estimate) => pretty_or_empty(document(estimate)),
        Err(message) => compact_text(error_document(message@)),
    }
}

/// The answer to a request for a plan, given the estimate of it or why there is
/// none.
pub fn plan_response(outcome: Result<Value, String>) -> (r: String)
    ensures
        r@ == plan_text(outcome),
        r@ == match outcome {
            Ok(estimate) => pretty_or_empty(document(estimate)),
            Err(message) => compact_text(error_document(message@)),
        },
{
    match outcome {
        Ok(estimate) => pretty(&estimate),
        Err(message) => error_answer(message.as_str()),
    }
}

/// The first `limit` of some values, or all where there are fewer.
pub open spec fn cut(values: Seq<Value>, limit: nat) -> Seq<Value> {
    if limit < values.len() {
        values.take(limit as int)
    } else {
        values
    }
}

/// What is answered to a request for recommendations, `ranked` being what describes
/// each of the `total` models that passed, best first.
pub open spec fn recommend_document(total: nat, ranked: Seq<Value>, limit: nat) -> Document {
    let returned = cut(ranked, limit);
    Document::Object(
        Map::empty().insert("total_models"@, Document::Unsigned(total)).insert(
            "returned_models"@,
            Document::Unsigned(returned.len()),
        ).insert("models"@, Document::List(documents(returned))),
    )
}

/// What is answered to a search, `ranked` being what describes each of the `total`
/// models that match, best first.
pub open spec fn search_document(
    query: Seq<char>,
    total: nat,
    ranked: Seq<Value>,
    limit: nat,
) -> Document {
    let returned = cut(ranked, limit);
    Document::Object(
        Map::empty().insert("query"@, Document::Text(query)).insert(
            "total_matches"@,
            Document::Unsigned(total),
        ).insert("returned_models"@, Document::Unsigned(returned.len())).insert(
            "models"@,
            Document::List(documents(returned)),
        ),
    )
}

/// The answer to a request for recommendations.
pub fn recommend_response(total: usize, ranked: Vec<Value>, limit: usize) -> (r: String)
    ensures
        r@ == pretty_or_empty(recommend_document(total as nat, ranked@, limit as nat)),
{
    let mut models = ranked;
    models.truncate(limit);
    assert(models@ =~= cut(ranked@, limit as nat));
    let returned: usize = models.len();
    proof {
        lemma_member_names();
    }
    let entries = with_member(Vec::new(), "total_models", count_value(total));
    let entries = with_member(entries, "returned_models", count_value(returned));
    let entries = with_member(entries, "models", list_value(models));
    pretty(&object_value(entries))
}

/// The answer to a search.
pub fn search_response(query: &str, total: usize, ranked: Vec<Value>, limit: usize) -> (r: String)
    ensures
        r@ == pretty_or_empty(search_document(query@, total as nat, ranked@, limit as nat)),
{
    let mut models = ranked;
    models.truncate(limit);
    assert(models@ =~= cut(ranked@, limit as nat));
    let returned: usize = models.len();
    proof {
        lemma_member_names();
    }
    let entries = with_member(Vec::new(), "query", text_value(query));
    let entries = with_member(entries, "total_matches", count_value(total));
    let entries = with_member(entries, "returned_models", count_value(returned));
    let entries = with_member(entries, "models", list_value(models));
    pretty(&object_value(entries))
}

/// What is answered to the request behind a listing.
pub open spec fn recommend_text(listing: Listing, ranked: Seq<Value>) -> Seq<char> {
    pretty_or_empty(recommend_document(listing.positions@.len(), ranked, listing.limit as nat))
}

/// What is answered to the search behind a listing.
pub open spec fn search_text(query: Seq<char>, listing: Listing, ranked: Seq<Value>) -> Seq<char> {
    pretty_or_empty(search_document(query, listing.positions@.len(), ranked, listing.limit as nat))
}

/// The answer to the request behind a listing, `ranked` being what describes each of
/// its fits, best first.
pub fn recommend_answer(listing: &Listing, ranked: Vec<Value>) -> (r: String)
    ensures
        r@ == pretty_or_empty(
            recommend_document(listing.positions@.len(), ranked@, listing.limit as nat),
        ),
        r@ == recommend_text(*listing, ranked@),
{
    recommend_response(listing.positions.len(), ranked, listing.limit)
}

/// The answer to the search behind a listing, `ranked` being what describes each of
/// its fits, best first.
pub fn search_answer(params: &SearchModelsParams, listing: &Listing, ranked: Vec<Value>) -> (r:
    String)
    ensures
        r@ == pretty_or_empty(
            search_document(
                params.query@,
                listing.positions@.len(),
                ranked@,
                listing.limit as nat,
            ),
        ),
        r@ == search_text(params.query@, *listing, ranked@),
{
    search_response(params.query.as_str(), listing.positions.len(), ranked, listing.limit)
}

// What is installed.

/// Whether a runtime is installed.
#[derive(Clone, Copy, Debug)]
pub struct RuntimeInfo {
    pub name: &'static str,
    pub installed: bool,
}

/// A model that a runtime has.
#[derive(Clone, Debug)]
pub struct InstalledModel {
    pub name: String,
    pub runtime: String,
}

/// What was found out about one runtime: whether it is there, and which models it
/// has.
#[derive(Clone, Debug)]
pub struct ProviderReport {
    pub name: &'static str,
    pub available: bool,
    pub installed: Vec<String>,
}

impl ProviderReport {
    /// Whether no model is named twice, as in a report made from a set of names.
    pub open spec fn names_each_once(self) -> bool {
        forall|i: int, j: int|
            0 <= i < j < self.installed@.len() ==> (#[trigger] self.installed@[i])@ != (
            #[trigger] self.installed@[j])@
    }
}

/// Whether every runtime reports at most once, and names each of its models once.
pub open spec fn reports_are_distinct(results: Seq<Option<ProviderReport>>) -> bool {
    &&& forall|i: int|
        0 <= i < results.len() && (#[trigger] results[i]) is Some
            ==> results[i]->0.names_each_once()
    &&& forall|i: int, j: int|
        0 <= i < j < results.len() && (#[trigger] results[i]) is Some && (
        #[trigger] results[j]) is Some ==> results[i]->0.name@ != results[j]->0.name@
}

/// The name of a model and the runtime that has it.
pub open spec fn installed_pair(model: InstalledModel) -> (Seq<char>, Seq<char>) {
    (model.name@, model.runtime@)
}

/// The models of one runtime, each with the runtime.
pub open spec fn pairs_of(runtime: Seq<char>, names: Seq<String>) -> Seq<(Seq<char>, Seq<char>)> {
    names.map_values(|name: String| (name@, runtime))
}

/// The models of all runtimes, runtime by runtime.
pub open spec fn installed_pairs(results: Seq<(&'static str, Vec<String>)>) -> Seq<
    (Seq<char>, Seq<char>),
>
    decreases results.len(),
{
    if results.len() == 0 {
        Seq::empty()
    } else {
        installed_pairs(results.drop_last()) + pairs_of(results.last().0@, results.last().1@)
    }
}

/// Every installed model with its runtime.
pub fn installed_models_from_results(results: Vec<(&'static str, Vec<String>)>) -> (r: Vec<
    InstalledModel,
>)
    ensures
        r@.map_values(|m: InstalledModel| installed_pair(m)) == installed_pairs(results@),
{
    let mut models: Vec<InstalledModel> = Vec::new();
    let mut i: usize = 0;
    assert(models@.map_values(|m: InstalledModel| installed_pair(m)) =~= installed_pairs(
        results@.take(0),
    ));
    while i < results.len()
        invariant
            i <= results@.len(),
            models@.map_values(|m: InstalledModel| installed_pair(m)) == installed_pairs(
                results@.take(i as int),
            ),
        decreases results.len() - i,
    {
        let runtime: &'static str = results[i].0;
        let names = &results[i].1;
        let ghost before = installed_pairs(results@.take(i as int));
        let mut j: usize = 0;
        assert(models@.map_values(|m: InstalledModel| installed_pair(m)) =~= before + pairs_of(
            runtime@,
            names@.take(0),
        ));
        while j < names.len()
            invariant
                j <= names@.len(),
                models@.map_values(|m: InstalledModel| installed_pair(m)) == before + pairs_of(
                    runtime@,
                    names@.take(j as int),
                ),
            decreases names.len() - j,
        {
            let model = InstalledModel {
                name: names[j].clone(),
                runtime: runtime.to_string(),
            };
            let ghost pairs = models@.map_values(|m: InstalledModel| installed_pair(m));
            models.push(model);
            proof {
                assert(models@.map_values(|m: InstalledModel| installed_pair(m)) =~= pairs.push(
                    installed_pair(model),
                ));
                assert(pairs_of(runtime@, names@.take(j + 1)) =~= pairs_of(
                    runtime@,
                    names@.take(j as int),
                ).push(installed_pair(model)));
            }
            j += 1;
        }
        proof {
            assert(names@.take(j as int) =~= names@);
            assert(results@.take(i + 1).drop_last() =~= results@.take(i as int));
        }
        i += 1;
    }
    assert(results@.take(i as int) =~= results@);
    models
}

/// The runtimes that are looked for.
pub open spec fn known_runtimes() -> Seq<Seq<char>> {
    seq![
        "ollama"@,
        "mlx"@,
        "llamacpp"@,
        "docker_model_runner"@,
        "lmstudio"@,
        "vllm"@,
        "ramalama"@,
    ]
}

/// The runtimes to look for.
pub fn runtimes_to_probe() -> (r: Vec<&'static str>)
    ensures
        r@.map_values(|s: &'static str| s@) == known_runtimes(),
{
    let mut names: Vec<&'static str> = Vec::new();
    names.push("ollama");
    names.push("mlx");
    names.push("llamacpp");
    names.push("docker_model_runner");
    names.push("lmstudio");
    names.push("vllm");
    names.push("ramalama");
    assert(names@.map_values(|s: &'static str| s@) =~= known_runtimes());
    names
}

/// What is answered of one runtime.
pub open spec fn runtime_document(info: RuntimeInfo) -> Document {
    Document::Object(
        Map::empty().insert("name"@, Document::Text(info.name@)).insert(
            "installed"@,
            Document::Bool(info.installed),
        ),
    )
}

/// What is answered of the runtimes whose probes came to an end.
pub open spec fn runtime_documents(results: Seq<Option<RuntimeInfo>>) -> Seq<Document>
    decreases results.len(),
{
    if results.len() == 0 {
        Seq::empty()
    } else {
        let before = runtime_documents(results.drop_last());
        match results.last() {
            Some(info) => before.push(runtime_document(info)),
            None => before,
        }
    }
}

/// An object whose one member is a list.
pub open spec fn list_document(name: Seq<char>, items: Seq<Document>) -> Document {
    Document::Object(Map::empty().insert(name, Document::List(items)))
}

/// What is answered of the runtimes.
pub open spec fn runtimes_text(results: Seq<Option<RuntimeInfo>>) -> Seq<char> {
    pretty_or_empty(list_document("runtimes"@, runtime_documents(results)))
}

impl<C> LlmfitMcpServer<C> {
    /// Which runtimes are installed, in the order in which their probes ended. A probe
    /// that failed is `None`, and not listed.
    pub fn get_runtimes(&self, results: Vec<Option<RuntimeInfo>>) -> (r: String)
        ensures
            r@ == pretty_or_empty(list_document("runtimes"@, runtime_documents(results@))),
            r@ == runtimes_text(results@),
    {
        let mut items: Vec<Value> = Vec::new();
        let mut i: usize = 0;
        assert(documents(items@) =~= runtime_documents(results@.take(0)));
        while i < results.len()
            invariant
                i <= results@.len(),
                documents(items@) == runtime_documents(results@.take(i as int)),
            decreases results.len() - i,
        {
            let ghost before = documents(items@);
            proof {
                assert(results@.take(i + 1).drop_last() =~= results@.take(i as int));
            }
            match results[i] {
                Some(info) => {
                    proof {
                        lemma_member_names();
                    }
                    let entries = with_member(Vec::new(), "name", text_value(info.name));
                    let entries = with_member(entries, "installed", bool_value(info.installed));
                    let item = object_value(entries);
                    items.push(item);
                    assert(documents(items@) =~= before.push(runtime_document(info)));
                },
                None => {},
            }
            i += 1;
        }
        assert(results@.take(i as int) =~= results@);
        pretty(&object_value(with_member(Vec::new(), "runtimes", list_value(items))))
    }
}

/// What is answered of one installed model.
pub open spec fn installed_document(pair: (Seq<char>, Seq<char>)) -> Document {
    Document::Object(
        Map::empty().insert("name"@, Document::Text(pair.0)).insert(
            "runtime"@,
            Document::Text(pair.1),
        ),
    )
}

/// The models of the runtimes that are there.
pub open spec fn available_pairs(results: Seq<Option<ProviderReport>>) -> Seq<
    (Seq<char>, Seq<char>),
>
    decreases results.len(),
{
    if results.len() == 0 {
        Seq::empty()
    } else {
        let before = available_pairs(results.drop_last());
        match results.last() {
            Some(report) => if report.available {
                before + pairs_of(report.name@, report.installed@)
            } else {
                before
            },
            None => before,
        }
    }
}

/// What is answered of the models that are installed.
pub open spec fn installed_text(results: Seq<Option<ProviderReport>>) -> Seq<char> {
    pretty_or_empty(
        list_document(
            "models"@,
            available_pairs(results).map_values(
                |pair: (Seq<char>, Seq<char>)| installed_document(pair),
            ),
        ),
    )
}

/// A copy of some texts.
fn copy_texts(v: &Vec<String>) -> (r: Vec<String>)
    ensures
        r@ == v@,
{
    let mut copy: Vec<String> = Vec::new();
    let mut i: usize = 0;
    while i < v.len()
        invariant
            i <= v@.len(),
            copy@ == v@.take(i as int),
        decreases v.len() - i,
    {
        copy.push(v[i].clone());
        assert(copy@ =~= v@.take(i + 1));
        i += 1;
    }
    assert(copy@ =~= v@);
    copy
}

/// The models of the runtimes that are there, in the order in which their probes
/// ended. A probe that failed is `None`.
fn detected_results(results: &Vec<Option<ProviderReport>>) -> (r: Vec<
    (&'static str, Vec<String>),
>)
    ensures
        installed_pairs(r@) == available_pairs(results@),
{
    let mut detected: Vec<(&'static str, Vec<String>)> = Vec::new();
    let mut i: usize = 0;
    assert(installed_pairs(detected@) =~= available_pairs(results@.take(0)));
    while i < results.len()
        invariant
            i <= results@.len(),
            installed_pairs(detected@) == available_pairs(results@.take(i as int)),
        decreases results.len() - i,
    {
        let ghost before = detected@;
        proof {
            assert(results@.take(i + 1).drop_last() =~= results@.take(i as int));
        }
        match &results[i] {
            Some(report) => {
                if report.available {
                    detected.push((report.name, copy_texts(&report.installed)));
                    assert(detected@.drop_last() =~= before);
                }
            },
            None => {},
        }
        i += 1;
    }
    assert(results@.take(i as int) =~= results@);
    detected
}

impl<C> LlmfitMcpServer<C> {
    /// The models that the runtimes on this machine have.
    pub fn get_installed_models(&self, results: Vec<Option<ProviderReport>>) -> (r: String)
        ensures
            r@ == pretty_or_empty(
                list_document(
                    "models"@,
                    available_pairs(results@).map_values(
                        |pair: (Seq<char>, Seq<char>)| installed_document(pair),
                    ),
                ),
            ),
            r@ == installed_text(results@),
    {
        let models = installed_models_from_results(detected_results(&results));
        let ghost pairs = available_pairs(results@);
        let ghost wanted = pairs.map_values(|pair: (Seq<char>, Seq<char>)| installed_document(pair));
        let mut items: Vec<Value> = Vec::new();
        let mut i: usize = 0;
        assert(models@.map_values(|m: InstalledModel| installed_pair(m)).len() == models@.len());
        while i < models.len()
            invariant
                i <= models@.len(),
                models@.map_values(|m: InstalledModel| installed_pair(m)) == pairs,
                wanted == pairs.map_values(|pair: (Seq<char>, Seq<char>)| installed_document(pair)),
                models@.len() == wanted.len(),
                documents(items@) == wanted.take(i as int),
            decreases models.len() - i,
        {
            let ghost before = documents(items@);
            let model = &models[i];
            proof {
                assert(pairs[i as int] == installed_pair(*model));
                lemma_member_names();
            }
            let entries = with_member(Vec::new(), "name", text_value(model.name.as_str()));
            let entries = with_member(entries, "runtime", text_value(model.runtime.as_str()));
            let item = object_value(entries);
            items.push(item);
            assert(documents(items@) =~= before.push(document(item)));
            assert(documents(items@) =~= wanted.take(i + 1));
            i += 1;
        }
        assert(wanted.take(i as int) =~= wanted);
        pretty(&object_value(with_member(Vec::new(), "models", list_value(items))))
    }
}

/// The name of a node, given what the environment calls the host.
pub open spec fn node_name_for(hostname: Option<String>) -> Seq<char> {
    match hostname {
        Some(name) => if trimmed(name@).len() > 0 {
            name@
        } else {
            "unknown-node"@
        },
        None => "unknown-node"@,
    }
}

/// The name of a node: what the environment calls the host, unless that is blank.
pub fn node_name_from(hostname: Option<String>) -> (r: String)
    ensures
        r@ == match hostname {
            Some(name) => if trimmed(name@).len() > 0 {
                name@
            } else {
                "unknown-node"@
            },
            None => "unknown-node"@,
        },
        r@ == node_name_for(hostname),
{
    match hostname {
        Some(name) => {
            if trim(name.as_str()).is_empty() {
                "unknown-node".to_string()
            } else {
                name
            }
        },
        None => "unknown-node".to_string(),
    }
}

} // verus!
