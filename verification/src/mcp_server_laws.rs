//! What holds of everything that the server lists and answers.

use crate::fit::{
    FitLevel, GpuBackend, InferenceRuntime, LlmModel, ModelFit, SortColumn, SystemSpecs, UseCase,
};
use crate::json::{compact_text, document, pretty_or_empty, Document};
use crate::mcp_server::{
    available_pairs, can_list, config_of, cut, error_document, field_of, fit_rank, found, has_name,
    installed_document, installed_pair, installed_pairs, installed_text, is_apple_silicon, is_found,
    is_plan_step, is_recommended, keyword, known_runtimes, lemma_member_names, level_passes,
    limit_wanted, list_document, min_fit_for, min_fit_wanted, node_name_for, pairs_of, plan_text,
    positions, recommend_document, recommend_text, recommended, reports_are_distinct,
    runtime_document, runtime_documents, runtime_for, runtime_wanted, runtimes_text,
    search_document, search_text, sort_wanted, system_document, text_of, unknown_model_message,
    use_case_for, use_case_wanted, InstalledModel, Listing, PlanHardwareParams, PlanStep,
    ProviderReport, RecommendModelsParams, RuntimeInfo,
};
use crate::text::{
    is_ascii_text, is_white_space, lower_ascii_text, lowercase, occurs_in, trimmed,
};
use crate::text_laws::{
    is_blank, lemma_ascii_trimmed, lemma_blank_trimmed, lemma_lower_trimmed,
    lemma_occurs_transitive, lower_case_ignores_ascii_case, padding_does_not_matter,
};
use serde_json::Value;
use vstd::prelude::*;

verus! {

/// The positions kept are in ascending order, and are exactly those to keep.
pub proof fn positions_are_exact(n: nat, keep: spec_fn(int) -> bool)
    requires
        n <= usize::MAX,
    ensures
        forall|i: int, j: int|
            0 <= i < j < positions(n, keep).len() ==> positions(n, keep)[i] < positions(
                n,
                keep,
            )[j],
        forall|i: int|
            0 <= i < positions(n, keep).len() ==> (#[trigger] positions(n, keep)[i]) < n && keep(
                positions(n, keep)[i] as int,
            ),
        forall|k: usize|
            k < n && keep(k as int) ==> #[trigger] positions(n, keep).contains(k),
    decreases n,
{
    if n > 0 {
        let m = (n - 1) as nat;
        positions_are_exact(m, keep);
        let before = positions(m, keep);
        let all = positions(n, keep);
        assert forall|k: usize| k < n && keep(k as int) implies #[trigger] all.contains(k) by {
            if k < m {
                assert(before.contains(k));
                let i = choose|i: int| 0 <= i < before.len() && before[i] == k;
                assert(all[i] == k);
            } else {
                assert(all[all.len() - 1] == k);
            }
        }
    }
}

/// A model that is too tight is never recommended, whatever minimum was asked for.
pub proof fn recommendations_run(
    specs: SystemSpecs,
    params: RecommendModelsParams,
    fit: ModelFit,
    license_allows: bool,
)
    requires
        is_recommended(specs, params, fit, license_allows),
    ensures
        fit.fit_level != FitLevel::TooTight,
{
}

/// Weights for the MLX runtime alone are listed on Apple silicon alone, by
/// recommendations and searches alike.
pub proof fn mlx_stays_on_apple_silicon(
    specs: SystemSpecs,
    params: RecommendModelsParams,
    query: Seq<char>,
    fit: ModelFit,
    license_allows: bool,
)
    requires
        !is_apple_silicon(specs),
        fit.model.mlx_only,
    ensures
        !is_recommended(specs, params, fit, license_allows),
        !is_found(specs, query, fit),
{
}

/// A higher minimum never lists more.
pub proof fn higher_minimum_lists_no_more(fit: ModelFit, low: FitLevel, high: FitLevel)
    requires
        fit_rank(low) <= fit_rank(high),
        level_passes(fit, Some(high)),
    ensures
        level_passes(fit, Some(low)),
{
}

/// Fit levels are ordered: each is at least itself, of any two one is at least the
/// other, and no two different levels are at least each other.
pub proof fn fit_levels_are_ordered(a: FitLevel, b: FitLevel)
    ensures
        fit_rank(a) >= fit_rank(b) || fit_rank(b) >= fit_rank(a),
        fit_rank(a) == fit_rank(b) <==> a == b,
{
}

/// An unknown minimum is as good as none: both list what runs.
pub proof fn unknown_minimum_lists_what_runs(fit: ModelFit, word: Seq<char>)
    requires
        word != "perfect"@,
        word != "good"@,
    ensures
        level_passes(fit, Some(min_fit_for(word))) == level_passes(fit, None),
{
}

/// White space around a keyword does not matter.
pub proof fn keywords_may_be_padded(before: Seq<char>, s: Seq<char>, after: Seq<char>)
    requires
        is_blank(before),
        is_blank(after),
    ensures
        keyword(before + s + after) == keyword(s),
{
    padding_does_not_matter(before, s, after);
}

/// The case of an ASCII keyword does not matter.
pub proof fn keywords_ignore_case(a: Seq<char>, b: Seq<char>)
    requires
        is_ascii_text(a),
        is_ascii_text(b),
        lower_ascii_text(a) == lower_ascii_text(b),
    ensures
        keyword(a) == keyword(b),
{
    lemma_lower_trimmed(a);
    lemma_lower_trimmed(b);
    lemma_ascii_trimmed(a);
    lemma_ascii_trimmed(b);
}

/// Queries with the same lower case find the same.
pub proof fn searches_ignore_case(specs: SystemSpecs, a: Seq<char>, b: Seq<char>, fit: ModelFit)
    requires
        lowercase(a) == lowercase(b),
    ensures
        is_found(specs, a, fit) == is_found(specs, b, fit),
{
}

/// The case of an ASCII query does not matter: the same fits are found, and what is
/// answered differs in the query alone.
pub proof fn ascii_searches_ignore_case(
    specs: SystemSpecs,
    a: Seq<char>,
    b: Seq<char>,
    fits: Seq<ModelFit>,
    total: nat,
    ranked: Seq<Value>,
    limit: nat,
)
    requires
        is_ascii_text(a),
        is_ascii_text(b),
        lower_ascii_text(a) == lower_ascii_text(b),
    ensures
        positions(fits.len(), |i: int| is_found(specs, a, fits[i])) == positions(
            fits.len(),
            |i: int| is_found(specs, b, fits[i]),
        ),
        ({
            let x = search_document(a, total, ranked, limit);
            let y = search_document(b, total, ranked, limit);
            y == Document::Object(x->Object_0.insert("query"@, Document::Text(b)))
        }),
{
    lower_case_ignores_ascii_case(a, b);
    let keep_a = |i: int| is_found(specs, a, fits[i]);
    let keep_b = |i: int| is_found(specs, b, fits[i]);
    assert forall|i: int| #[trigger] keep_a(i) == keep_b(i) by {
        searches_ignore_case(specs, a, b, fits[i]);
    }
    lemma_positions_same(fits.len(), keep_a, keep_b);
    lemma_member_names();
    let x = search_document(a, total, ranked, limit);
    let y = search_document(b, total, ranked, limit);
    assert(x->Object_0.insert("query"@, Document::Text(b)) =~= y->Object_0);
}

proof fn lemma_positions_same(n: nat, a: spec_fn(int) -> bool, b: spec_fn(int) -> bool)
    requires
        forall|i: int| 0 <= i < n ==> #[trigger] a(i) == b(i),
    ensures
        positions(n, a) == positions(n, b),
    decreases n,
{
    if n > 0 {
        lemma_positions_same((n - 1) as nat, a, b);
        assert(a(n - 1) == b(n - 1));
    }
}

/// The empty query finds every model that runs: what it lists, and the order and the
/// limit it asks for, are those of a request for recommendations without a filter.
/// So are the total, the number returned and the models of the answer.
pub proof fn empty_query_finds_what_runs(
    specs: SystemSpecs,
    params: RecommendModelsParams,
    fits: Seq<ModelFit>,
    license_allows: Seq<bool>,
    total: nat,
    ranked: Seq<Value>,
)
    requires
        params.use_case is None,
        params.min_fit is None,
        params.runtime is None,
        params.license is None,
        params.sort is None,
    ensures
        positions(fits.len(), |i: int| is_found(specs, Seq::empty(), fits[i])) == positions(
            fits.len(),
            |i: int| is_recommended(specs, params, fits[i], license_allows[i]),
        ),
        sort_wanted(field_of(params.sort)) == SortColumn::Score,
        ({
            let limit = limit_wanted(params.limit) as nat;
            let found = search_document(Seq::empty(), total, ranked, limit)->Object_0;
            let listed = recommend_document(total, ranked, limit)->Object_0;
            &&& found["total_matches"@] == listed["total_models"@]
            &&& found["returned_models"@] == listed["returned_models"@]
            &&& found["models"@] == listed["models"@]
        }),
{
    let keep_a = |i: int| is_found(specs, Seq::empty(), fits[i]);
    let keep_b = |i: int| is_recommended(specs, params, fits[i], license_allows[i]);
    assert forall|i: int| #[trigger] keep_a(i) == keep_b(i) by {
        let name = lowercase(fits[i].model.name@);
        let part = lowercase(Seq::empty());
        assert(part =~= Seq::empty());
        assert(name.subrange(0, 0 + part.len() as int) =~= part);
        assert(occurs_in(part, name));
    }
    lemma_positions_same(fits.len(), keep_a, keep_b);
    lemma_member_names();
}

/// No more models are returned than the limit, and no fewer unless there are fewer;
/// they are the first ones.
pub proof fn limit_is_kept(values: Seq<Value>, limit: nat)
    ensures
        cut(values, limit).len() <= limit,
        cut(values, limit).len() == limit || cut(values, limit) == values,
        forall|i: int| 0 <= i < cut(values, limit).len() ==> cut(values, limit)[i] == values[i],
{
}

/// The number of models returned is the smaller of the limit and the total, where
/// each of the models counted is described. The answers say so, and hold as many.
pub proof fn returned_is_the_smaller_of_limit_and_total(
    query: Seq<char>,
    total: nat,
    ranked: Seq<Value>,
    limit: nat,
)
    requires
        ranked.len() == total,
    ensures
        ({
            let returned = if limit < total {
                limit
            } else {
                total
            };
            let listed = recommend_document(total, ranked, limit)->Object_0;
            let found = search_document(query, total, ranked, limit)->Object_0;
            &&& cut(ranked, limit).len() == returned
            &&& listed["total_models"@] == Document::Unsigned(total)
            &&& listed["returned_models"@] == Document::Unsigned(returned)
            &&& listed["models"@]->List_0.len() == returned
            &&& found["query"@] == Document::Text(query)
            &&& found["total_matches"@] == Document::Unsigned(total)
            &&& found["returned_models"@] == Document::Unsigned(returned)
            &&& found["models"@]->List_0.len() == returned
        }),
{
    lemma_member_names();
}

/// A model keeps its name and its runtime: what an available runtime has is listed
/// with both.
pub proof fn installed_models_keep_their_identity(
    results: Seq<Option<ProviderReport>>,
    i: int,
    j: int,
)
    requires
        0 <= i < results.len(),
        results[i] is Some,
        results[i]->0.available,
        0 <= j < results[i]->0.installed@.len(),
    ensures
        available_pairs(results).contains((results[i]->0.installed@[j]@, results[i]->0.name@)),
    decreases results.len(),
{
    let pair = (results[i]->0.installed@[j]@, results[i]->0.name@);
    let shorter = results.drop_last();
    let before = available_pairs(shorter);
    let all = available_pairs(results);
    if i < results.len() - 1 {
        assert(shorter[i] == results[i]);
        installed_models_keep_their_identity(shorter, i, j);
        let k = choose|k: int| 0 <= k < before.len() && before[k] == pair;
        assert(all[k] == pair);
    } else {
        let own = pairs_of(results[i]->0.name@, results[i]->0.installed@);
        assert(own[j] == pair);
        assert(all[before.len() + j] == pair);
    }
}

/// Nothing else is listed: every listed model is one that an available runtime has.
pub proof fn listed_models_are_installed(results: Seq<Option<ProviderReport>>, k: int) -> (at: (
    int,
    int,
))
    requires
        0 <= k < available_pairs(results).len(),
    ensures
        ({
            let (i, j) = at;
            &&& 0 <= i < results.len()
            &&& results[i] is Some
            &&& results[i]->0.available
            &&& 0 <= j < results[i]->0.installed@.len()
            &&& available_pairs(results)[k] == (
                results[i]->0.installed@[j]@,
                results[i]->0.name@,
            )
        }),
    decreases results.len(),
{
    let shorter = results.drop_last();
    let before = available_pairs(shorter);
    if k < before.len() {
        let (i, j) = listed_models_are_installed(shorter, k);
        assert(shorter[i] == results[i]);
        (i, j)
    } else {
        (results.len() - 1, k - before.len())
    }
}

/// No runtime is looked for twice.
pub proof fn runtimes_are_probed_once()
    ensures
        known_runtimes().no_duplicates(),
{
    reveal_strlit("ollama");
    reveal_strlit("mlx");
    reveal_strlit("llamacpp");
    reveal_strlit("docker_model_runner");
    reveal_strlit("lmstudio");
    reveal_strlit("vllm");
    reveal_strlit("ramalama");
    assert("ollama"@.len() == 6 && "mlx"@.len() == 3 && "docker_model_runner"@.len() == 19);
    assert("vllm"@.len() == 4 && "llamacpp"@.len() == 8);
    assert("llamacpp"@[1] == 'l' && "lmstudio"@[1] == 'm' && "ramalama"@[1] == 'a');
    assert("lmstudio"@.len() == 8 && "ramalama"@.len() == 8);
}

/// No model of a runtime is listed twice, where the runtimes report once each and
/// name no model twice.
pub proof fn installed_models_are_listed_once(results: Seq<Option<ProviderReport>>)
    requires
        reports_are_distinct(results),
    ensures
        available_pairs(results).no_duplicates(),
    decreases results.len(),
{
    if results.len() > 0 {
        let n = results.len() - 1;
        let shorter = results.drop_last();
        assert(forall|i: int| 0 <= i < n ==> #[trigger] shorter[i] == results[i]);
        installed_models_are_listed_once(shorter);
        let before = available_pairs(shorter);
        let all = available_pairs(results);
        if results[n] is Some && results[n]->0.available {
            let report = results[n]->0;
            let own = pairs_of(report.name@, report.installed@);
            assert(report.names_each_once());
            assert forall|a: int, b: int| 0 <= a < b < all.len() implies all[a] != all[b] by {
                if b < before.len() {
                    assert(all[a] == before[a] && all[b] == before[b]);
                } else if a >= before.len() {
                    let (j, k) = (a - before.len(), b - before.len());
                    assert(all[a] == own[j] && all[b] == own[k]);
                    assert(report.installed@[j]@ != report.installed@[k]@);
                } else {
                    let (i, j) = listed_models_are_installed(shorter, a);
                    assert(all[a] == before[a]);
                    assert(all[b] == own[b - before.len()]);
                    assert(shorter[i] == results[i]);
                }
            }
        }
    }
}

// What a request lists.

/// Whether a field of a request says `word`, whatever its case and the space around it.
pub open spec fn says(field: Option<String>, word: Seq<char>) -> bool {
    field matches Some(s) && keyword(s@) == word
}

/// The words for fit levels, runtimes and use cases differ from each other.
proof fn lemma_words_differ()
    ensures
        "perfect"@ != "good"@,
        forall|word: Seq<char>| #[trigger]
            runtime_for(word) == Some(InferenceRuntime::Mlx) <==> word == "mlx"@,
        forall|word: Seq<char>| #[trigger]
            runtime_for(word) == Some(InferenceRuntime::LlamaCpp) <==> (word == "llamacpp"@ || word
                == "llama.cpp"@ || word == "llama_cpp"@),
        forall|word: Seq<char>| #[trigger]
            runtime_for(word) == Some(InferenceRuntime::Vllm) <==> word == "vllm"@,
        forall|word: Seq<char>| #[trigger]
            use_case_for(word) == Some(UseCase::Coding) <==> (word == "coding"@ || word == "code"@),
        forall|word: Seq<char>| #[trigger]
            use_case_for(word) == Some(UseCase::Reasoning) <==> (word == "reasoning"@ || word
                == "reason"@),
        forall|word: Seq<char>| #[trigger]
            use_case_for(word) == Some(UseCase::Chat) <==> word == "chat"@,
        forall|word: Seq<char>| #[trigger]
            use_case_for(word) == Some(UseCase::Multimodal) <==> (word == "multimodal"@ || word
                == "vision"@),
        forall|word: Seq<char>| #[trigger]
            use_case_for(word) == Some(UseCase::Embedding) <==> (word == "embedding"@ || word
                == "embed"@),
        forall|word: Seq<char>| #[trigger]
            use_case_for(word) == Some(UseCase::General) <==> word == "general"@,
{
    reveal_strlit("perfect");
    reveal_strlit("good");
    assert("perfect"@.len() == 7 && "good"@.len() == 4);
    reveal_strlit("mlx");
    reveal_strlit("vllm");
    reveal_strlit("llamacpp");
    reveal_strlit("llama.cpp");
    reveal_strlit("llama_cpp");
    assert("mlx"@.len() == 3 && "vllm"@.len() == 4 && "llamacpp"@.len() == 8);
    assert("llama.cpp"@.len() == 9 && "llama_cpp"@.len() == 9);
    reveal_strlit("coding");
    reveal_strlit("code");
    reveal_strlit("reasoning");
    reveal_strlit("reason");
    reveal_strlit("chat");
    reveal_strlit("multimodal");
    reveal_strlit("vision");
    reveal_strlit("embedding");
    reveal_strlit("embed");
    reveal_strlit("general");
    assert("coding"@[0] == 'c' && "code"@[0] == 'c' && "chat"@[0] == 'c');
    assert("coding"@[1] == 'o' && "code"@[1] == 'o' && "chat"@[1] == 'h');
    assert("reasoning"@[0] == 'r' && "reason"@[0] == 'r' && "multimodal"@[0] == 'm');
    assert("vision"@[0] == 'v' && "embedding"@[0] == 'e' && "embed"@[0] == 'e');
    assert("general"@[0] == 'g');
}

/// A fit is recommended exactly where it passes every filter, each by itself: on a
/// machine that can list it, not too tight, and of the fit level, the runtime, the use
/// case and the license asked for, as far as the request names any.
pub proof fn recommendations_pass_every_filter(
    specs: SystemSpecs,
    params: RecommendModelsParams,
    fits: Seq<ModelFit>,
    license_allows: Seq<bool>,
    p: usize,
)
    requires
        fits.len() <= usize::MAX,
    ensures
        recommended(specs, params, fits, license_allows).contains(p) <==> {
            let fit = fits[p as int];
            &&& p < fits.len()
            &&& fit.model.mlx_only ==> specs.unified_memory && specs.backend == GpuBackend::Metal
            &&& fit.fit_level == FitLevel::Perfect || fit.fit_level == FitLevel::Good
                || fit.fit_level == FitLevel::Marginal
            &&& says(params.min_fit, "perfect"@) ==> fit.fit_level == FitLevel::Perfect
            &&& says(params.min_fit, "good"@) ==> fit.fit_level != FitLevel::Marginal
            &&& says(params.runtime, "mlx"@) ==> fit.runtime == InferenceRuntime::Mlx
            &&& says(params.runtime, "llamacpp"@) ==> fit.runtime == InferenceRuntime::LlamaCpp
            &&& says(params.runtime, "llama.cpp"@) ==> fit.runtime == InferenceRuntime::LlamaCpp
            &&& says(params.runtime, "llama_cpp"@) ==> fit.runtime == InferenceRuntime::LlamaCpp
            &&& says(params.runtime, "vllm"@) ==> fit.runtime == InferenceRuntime::Vllm
            &&& says(params.use_case, "coding"@) ==> fit.use_case == UseCase::Coding
            &&& says(params.use_case, "code"@) ==> fit.use_case == UseCase::Coding
            &&& says(params.use_case, "reasoning"@) ==> fit.use_case == UseCase::Reasoning
            &&& says(params.use_case, "reason"@) ==> fit.use_case == UseCase::Reasoning
            &&& says(params.use_case, "chat"@) ==> fit.use_case == UseCase::Chat
            &&& says(params.use_case, "multimodal"@) ==> fit.use_case == UseCase::Multimodal
            &&& says(params.use_case, "vision"@) ==> fit.use_case == UseCase::Multimodal
            &&& says(params.use_case, "embedding"@) ==> fit.use_case == UseCase::Embedding
            &&& says(params.use_case, "embed"@) ==> fit.use_case == UseCase::Embedding
            &&& says(params.use_case, "general"@) ==> fit.use_case == UseCase::General
            &&& params.license is Some ==> license_allows[p as int]
        },
{
    let keep = |i: int| is_recommended(specs, params, fits[i], license_allows[i]);
    lemma_position_kept(fits.len(), keep, p);
    lemma_words_differ();
    if p < fits.len() {
        if params.runtime is Some {
            let word = keyword(params.runtime->0@);
            match runtime_for(word) {
                Some(runtime) => {
                    assert(runtime_for(word) == Some(runtime));
                },
                None => {},
            }
        }
        if params.use_case is Some {
            let word = keyword(params.use_case->0@);
            match use_case_for(word) {
                Some(use_case) => {
                    assert(use_case_for(word) == Some(use_case));
                },
                None => {},
            }
        }
    }
}

/// A position is kept exactly where it is to be kept.
proof fn lemma_position_kept(n: nat, keep: spec_fn(int) -> bool, p: usize)
    requires
        n <= usize::MAX,
    ensures
        positions(n, keep).contains(p) <==> p < n && keep(p as int),
{
    positions_are_exact(n, keep);
    if positions(n, keep).contains(p) {
        let i = choose|i: int| 0 <= i < positions(n, keep).len() && positions(n, keep)[i] == p;
        assert(positions(n, keep)[i] < n);
    }
}

/// Positions are listed in ascending order, so none is listed twice, by
/// recommendations and searches alike.
pub proof fn listings_ascend(
    specs: SystemSpecs,
    params: RecommendModelsParams,
    query: Seq<char>,
    fits: Seq<ModelFit>,
    license_allows: Seq<bool>,
    i: int,
    j: int,
)
    requires
        fits.len() <= usize::MAX,
        0 <= i < j,
    ensures
        j < recommended(specs, params, fits, license_allows).len() ==> recommended(
            specs,
            params,
            fits,
            license_allows,
        )[i] < recommended(specs, params, fits, license_allows)[j],
        j < found(specs, query, fits).len() ==> found(specs, query, fits)[i] < found(
            specs,
            query,
            fits,
        )[j],
{
    positions_are_exact(
        fits.len(),
        |i: int| is_recommended(specs, params, fits[i], license_allows[i]),
    );
    positions_are_exact(fits.len(), |i: int| is_found(specs, query, fits[i]));
}

/// Whether the filter of one request is that of either of two, the other having none.
pub open spec fn joins(
    both: Option<String>,
    one: Option<String>,
    other: Option<String>,
) -> bool {
    both == one && other is None || both == other && one is None
}

/// Filters do not depend on each other: what a request with the filters of two lists is
/// what both list.
pub proof fn filters_are_independent(
    specs: SystemSpecs,
    both: RecommendModelsParams,
    one: RecommendModelsParams,
    other: RecommendModelsParams,
    fits: Seq<ModelFit>,
    license_allows: Seq<bool>,
    p: usize,
)
    requires
        fits.len() <= usize::MAX,
        joins(both.use_case, one.use_case, other.use_case),
        joins(both.min_fit, one.min_fit, other.min_fit),
        joins(both.runtime, one.runtime, other.runtime),
        joins(both.license, one.license, other.license),
    ensures
        recommended(specs, both, fits, license_allows).contains(p) <==> recommended(
            specs,
            one,
            fits,
            license_allows,
        ).contains(p) && recommended(specs, other, fits, license_allows).contains(p),
{
    let keep = |i: int| is_recommended(specs, both, fits[i], license_allows[i]);
    let keep_one = |i: int| is_recommended(specs, one, fits[i], license_allows[i]);
    let keep_other = |i: int| is_recommended(specs, other, fits[i], license_allows[i]);
    lemma_position_kept(fits.len(), keep, p);
    lemma_position_kept(fits.len(), keep_one, p);
    lemma_position_kept(fits.len(), keep_other, p);
}

/// Whether a filter is that of an earlier request, or new where that had none.
pub open spec fn adds(more: Option<String>, fewer: Option<String>) -> bool {
    more == fewer || fewer is None
}

/// Adding filters to a request never adds a position to its listing.
pub proof fn more_filters_list_no_more(
    specs: SystemSpecs,
    more: RecommendModelsParams,
    fewer: RecommendModelsParams,
    fits: Seq<ModelFit>,
    license_allows: Seq<bool>,
    p: usize,
)
    requires
        fits.len() <= usize::MAX,
        adds(more.use_case, fewer.use_case),
        adds(more.min_fit, fewer.min_fit),
        adds(more.runtime, fewer.runtime),
        adds(more.license, fewer.license),
        recommended(specs, more, fits, license_allows).contains(p),
    ensures
        recommended(specs, fewer, fits, license_allows).contains(p),
{
    let keep_more = |i: int| is_recommended(specs, more, fits[i], license_allows[i]);
    let keep_fewer = |i: int| is_recommended(specs, fewer, fits[i], license_allows[i]);
    lemma_position_kept(fits.len(), keep_more, p);
    lemma_position_kept(fits.len(), keep_fewer, p);
}

/// Neither the order nor the limit asked for changes what is listed.
pub proof fn order_and_limit_do_not_filter(
    specs: SystemSpecs,
    a: RecommendModelsParams,
    b: RecommendModelsParams,
    fits: Seq<ModelFit>,
    license_allows: Seq<bool>,
)
    requires
        a.use_case == b.use_case,
        a.min_fit == b.min_fit,
        a.runtime == b.runtime,
        a.license == b.license,
    ensures
        recommended(specs, a, fits, license_allows) == recommended(specs, b, fits, license_allows),
{
    let keep_a = |i: int| is_recommended(specs, a, fits[i], license_allows[i]);
    let keep_b = |i: int| is_recommended(specs, b, fits[i], license_allows[i]);
    lemma_positions_same(fits.len(), keep_a, keep_b);
}

/// A word that names no runtime, or no use case, filters nothing.
pub proof fn unknown_words_filter_nothing(
    specs: SystemSpecs,
    a: RecommendModelsParams,
    b: RecommendModelsParams,
    fits: Seq<ModelFit>,
    license_allows: Seq<bool>,
)
    requires
        a.min_fit == b.min_fit,
        a.license == b.license,
        b.runtime is None,
        b.use_case is None,
        forall|word: Seq<char>| #[trigger]
            says(a.runtime, word) ==> word != "mlx"@ && word != "llamacpp"@ && word != "llama.cpp"@
                && word != "llama_cpp"@ && word != "vllm"@,
        forall|word: Seq<char>| #[trigger]
            says(a.use_case, word) ==> word != "coding"@ && word != "code"@ && word != "reasoning"@
                && word != "reason"@ && word != "chat"@ && word != "multimodal"@ && word
                != "vision"@ && word != "embedding"@ && word != "embed"@ && word != "general"@,
    ensures
        recommended(specs, a, fits, license_allows) == recommended(specs, b, fits, license_allows),
{
    let keep_a = |i: int| is_recommended(specs, a, fits[i], license_allows[i]);
    let keep_b = |i: int| is_recommended(specs, b, fits[i], license_allows[i]);
    if a.runtime is Some {
        assert(says(a.runtime, keyword(a.runtime->0@)));
    }
    if a.use_case is Some {
        assert(says(a.use_case, keyword(a.use_case->0@)));
    }
    lemma_positions_same(fits.len(), keep_a, keep_b);
}

/// The column to sort by is the one that the request names: each column has its words,
/// and any other word, as none, means the score.
pub proof fn columns_have_their_words(raw: Seq<char>)
    ensures
        ({
            let word = keyword(raw);
            let column = sort_wanted(Some(raw));
            &&& column == SortColumn::Tps <==> word == "tps"@ || word == "tokens"@ || word
                == "throughput"@
            &&& column == SortColumn::Params <==> word == "params"@ || word == "parameters"@
            &&& column == SortColumn::MemPct <==> word == "mem"@ || word == "memory"@ || word
                == "mem_pct"@
            &&& column == SortColumn::Ctx <==> word == "ctx"@ || word == "context"@
            &&& column == SortColumn::ReleaseDate <==> word == "date"@ || word == "release"@
            &&& column == SortColumn::UseCase <==> word == "use"@ || word == "use_case"@
        }),
        sort_wanted(None) == SortColumn::Score,
{
    reveal_strlit("tps");
    reveal_strlit("tokens");
    reveal_strlit("throughput");
    reveal_strlit("params");
    reveal_strlit("parameters");
    reveal_strlit("mem");
    reveal_strlit("memory");
    reveal_strlit("mem_pct");
    reveal_strlit("ctx");
    reveal_strlit("context");
    reveal_strlit("date");
    reveal_strlit("release");
    reveal_strlit("use");
    reveal_strlit("use_case");
    assert("tps"@[0] == 't' && "tokens"@[0] == 't' && "throughput"@[0] == 't');
    assert("params"@[0] == 'p' && "parameters"@[0] == 'p');
    assert("mem"@[0] == 'm' && "memory"@[0] == 'm' && "mem_pct"@[0] == 'm');
    assert("ctx"@[0] == 'c' && "context"@[0] == 'c' && "date"@[0] == 'd');
    assert("release"@[0] == 'r' && "use"@[0] == 'u' && "use_case"@[0] == 'u');
}

/// The least level is the one that the request names, and any other word names the
/// marginal one. Runtimes and use cases have their words, and other words name none.
pub proof fn filters_have_their_words(raw: Seq<char>)
    ensures
        ({
            let word = keyword(raw);
            let level = min_fit_wanted(Some(raw));
            let runtime = runtime_wanted(Some(raw));
            let use_case = use_case_wanted(Some(raw));
            &&& level == Some(FitLevel::Perfect) <==> word == "perfect"@
            &&& level == Some(FitLevel::Good) <==> word == "good"@
            &&& level == Some(FitLevel::Marginal) <==> word != "perfect"@ && word != "good"@
            &&& runtime == Some(InferenceRuntime::Mlx) <==> word == "mlx"@
            &&& runtime == Some(InferenceRuntime::LlamaCpp) <==> word == "llamacpp"@ || word
                == "llama.cpp"@ || word == "llama_cpp"@
            &&& runtime == Some(InferenceRuntime::Vllm) <==> word == "vllm"@
            &&& use_case == Some(UseCase::Coding) <==> word == "coding"@ || word == "code"@
            &&& use_case == Some(UseCase::Reasoning) <==> word == "reasoning"@ || word == "reason"@
            &&& use_case == Some(UseCase::Chat) <==> word == "chat"@
            &&& use_case == Some(UseCase::Multimodal) <==> word == "multimodal"@ || word
                == "vision"@
            &&& use_case == Some(UseCase::Embedding) <==> word == "embedding"@ || word == "embed"@
            &&& use_case == Some(UseCase::General) <==> word == "general"@
        }),
        min_fit_wanted(None) is None,
        runtime_wanted(None) is None,
        use_case_wanted(None) is None,
{
    lemma_words_differ();
    let word = keyword(raw);
    assert(runtime_for(word) == Some(InferenceRuntime::Mlx) <==> word == "mlx"@);
    assert(use_case_for(word) == Some(UseCase::Chat) <==> word == "chat"@);
}

/// An ASCII word is read without the white space around it and in lower case.
pub proof fn ascii_keywords(raw: Seq<char>)
    requires
        is_ascii_text(raw),
    ensures
        keyword(raw) == lower_ascii_text(trimmed(raw)),
{
    lemma_ascii_trimmed(raw);
}

/// Fit levels rank from perfect down to too tight.
pub proof fn fit_levels_rank_from_perfect_down()
    ensures
        fit_rank(FitLevel::Perfect) > fit_rank(FitLevel::Good),
        fit_rank(FitLevel::Good) > fit_rank(FitLevel::Marginal),
        fit_rank(FitLevel::Marginal) > fit_rank(FitLevel::TooTight),
{
}

/// As many are listed at most as were asked for, and ten where no number was given.
pub proof fn ten_is_the_limit_by_default(n: usize)
    ensures
        limit_wanted(Some(n)) == n,
        limit_wanted(None) == 10,
{
}

/// The machine lists a fit exactly where its weights can run there: weights for the MLX
/// runtime alone run on Metal with unified memory alone.
pub proof fn machines_list_what_they_can_run(specs: SystemSpecs, fits: Seq<ModelFit>, p: usize)
    requires
        fits.len() <= usize::MAX,
    ensures
        positions(fits.len(), |i: int| can_list(specs, fits[i])).contains(p) <==> {
            &&& p < fits.len()
            &&& fits[p as int].model.mlx_only ==> specs.unified_memory && specs.backend
                == GpuBackend::Metal
        },
{
    lemma_position_kept(fits.len(), |i: int| can_list(specs, fits[i]), p);
}

// What a search finds.

/// Whether one of the five texts of a fit holds the query, both in lower case.
pub open spec fn holds_query(fit: ModelFit, query: Seq<char>) -> bool {
    ||| occurs_in(lowercase(query), lowercase(fit.model.name@))
    ||| occurs_in(lowercase(query), lowercase(fit.model.provider@))
    ||| occurs_in(lowercase(query), lowercase(fit.model.parameter_count@))
    ||| occurs_in(lowercase(query), lowercase(fit.model.use_case@))
    ||| occurs_in(lowercase(query), lowercase(fit.use_case_label@))
}

/// A fit is found exactly where the machine can list it, it is perfect, good or
/// marginal, and one of its texts holds the query.
pub proof fn searches_find_what_holds_the_query(
    specs: SystemSpecs,
    query: Seq<char>,
    fits: Seq<ModelFit>,
    p: usize,
)
    requires
        fits.len() <= usize::MAX,
    ensures
        found(specs, query, fits).contains(p) <==> {
            let fit = fits[p as int];
            &&& p < fits.len()
            &&& fit.model.mlx_only ==> specs.unified_memory && specs.backend == GpuBackend::Metal
            &&& fit.fit_level == FitLevel::Perfect || fit.fit_level == FitLevel::Good
                || fit.fit_level == FitLevel::Marginal
            &&& holds_query(fit, query)
        },
{
    lemma_position_kept(fits.len(), |i: int| is_found(specs, query, fits[i]), p);
}

/// What a query finds is what the empty query finds and whose texts hold the query.
pub proof fn queries_narrow_the_empty_query(
    specs: SystemSpecs,
    query: Seq<char>,
    fits: Seq<ModelFit>,
    p: usize,
)
    requires
        fits.len() <= usize::MAX,
    ensures
        found(specs, query, fits).contains(p) <==> found(specs, Seq::empty(), fits).contains(p)
            && holds_query(fits[p as int], query),
{
    searches_find_what_holds_the_query(specs, query, fits, p);
    searches_find_what_holds_the_query(specs, Seq::empty(), fits, p);
    let name = lowercase(fits[p as int].model.name@);
    let part = lowercase(Seq::empty());
    assert(part =~= Seq::empty());
    assert(name.subrange(0, 0 + part.len() as int) =~= part);
    assert(occurs_in(part, name));
}

/// How well a model fits does not matter to a search, as long as it runs.
pub proof fn runnable_levels_are_found_alike(
    specs: SystemSpecs,
    query: Seq<char>,
    a: ModelFit,
    b: ModelFit,
)
    requires
        a.fit_level != FitLevel::TooTight,
        b.fit_level != FitLevel::TooTight,
        a.model == b.model,
        a.use_case_label@ == b.use_case_label@,
    ensures
        is_found(specs, query, a) == is_found(specs, query, b),
{
}

/// A query that is part of another finds all that the other finds.
pub proof fn shorter_queries_find_no_less(
    specs: SystemSpecs,
    query: Seq<char>,
    longer: Seq<char>,
    fits: Seq<ModelFit>,
    p: usize,
)
    requires
        fits.len() <= usize::MAX,
        occurs_in(lowercase(query), lowercase(longer)),
        found(specs, longer, fits).contains(p),
    ensures
        found(specs, query, fits).contains(p),
{
    searches_find_what_holds_the_query(specs, query, fits, p);
    searches_find_what_holds_the_query(specs, longer, fits, p);
    let fit = fits[p as int];
    let (part, whole) = (lowercase(query), lowercase(longer));
    if occurs_in(whole, lowercase(fit.model.name@)) {
        lemma_occurs_transitive(part, whole, lowercase(fit.model.name@));
    } else if occurs_in(whole, lowercase(fit.model.provider@)) {
        lemma_occurs_transitive(part, whole, lowercase(fit.model.provider@));
    } else if occurs_in(whole, lowercase(fit.model.parameter_count@)) {
        lemma_occurs_transitive(part, whole, lowercase(fit.model.parameter_count@));
    } else if occurs_in(whole, lowercase(fit.model.use_case@)) {
        lemma_occurs_transitive(part, whole, lowercase(fit.model.use_case@));
    } else {
        lemma_occurs_transitive(part, whole, lowercase(fit.use_case_label@));
    }
}

/// A model that runs is found by each of its texts.
pub proof fn models_are_found_by_their_texts(
    specs: SystemSpecs,
    query: Seq<char>,
    fits: Seq<ModelFit>,
    p: usize,
)
    requires
        fits.len() <= usize::MAX,
        p < fits.len(),
        fits[p as int].fit_level != FitLevel::TooTight,
        !fits[p as int].model.mlx_only,
        query == fits[p as int].model.name@ || query == fits[p as int].model.provider@ || query
            == fits[p as int].model.parameter_count@ || query == fits[p as int].model.use_case@
            || query == fits[p as int].use_case_label@,
    ensures
        found(specs, query, fits).contains(p),
{
    searches_find_what_holds_the_query(specs, query, fits, p);
    let part = lowercase(query);
    assert(part.subrange(0, 0 + part.len() as int) =~= part);
    assert(occurs_in(part, part));
}

// What is answered.

/// An answer to a request for recommendations says how many models passed and how many
/// are returned, and describes the first ones, in order. It says nothing else.
pub proof fn recommendations_are_described_in_order(
    total: nat,
    ranked: Seq<Value>,
    limit: nat,
    i: int,
)
    ensures
        ({
            let answer = recommend_document(total, ranked, limit);
            let listed = answer->Object_0;
            &&& answer is Object
            &&& listed.dom() == set!["total_models"@, "returned_models"@, "models"@]
            &&& listed["total_models"@] == Document::Unsigned(total)
            &&& listed["models"@] is List
            &&& listed["returned_models"@] == Document::Unsigned(listed["models"@]->List_0.len())
            &&& 0 <= i < ranked.len() && i < limit ==> i < listed["models"@]->List_0.len()
                && listed["models"@]->List_0[i] == document(ranked[i])
            &&& listed["models"@]->List_0.len() <= ranked.len()
            &&& listed["models"@]->List_0.len() <= limit
        }),
{
    lemma_member_names();
    let listed = recommend_document(total, ranked, limit)->Object_0;
    assert(listed.dom() =~= set!["total_models"@, "returned_models"@, "models"@]);
}

/// An answer to a search says the query, how many models match and how many are
/// returned, and describes the first ones, in order. It says nothing else.
pub proof fn matches_are_described_in_order(
    query: Seq<char>,
    total: nat,
    ranked: Seq<Value>,
    limit: nat,
    i: int,
)
    ensures
        ({
            let answer = search_document(query, total, ranked, limit);
            let listed = answer->Object_0;
            &&& answer is Object
            &&& listed.dom() == set!["query"@, "total_matches"@, "returned_models"@, "models"@]
            &&& listed["query"@] == Document::Text(query)
            &&& listed["total_matches"@] == Document::Unsigned(total)
            &&& listed["models"@] is List
            &&& listed["returned_models"@] == Document::Unsigned(listed["models"@]->List_0.len())
            &&& 0 <= i < ranked.len() && i < limit ==> i < listed["models"@]->List_0.len()
                && listed["models"@]->List_0[i] == document(ranked[i])
            &&& listed["models"@]->List_0.len() <= ranked.len()
            &&& listed["models"@]->List_0.len() <= limit
        }),
{
    lemma_member_names();
    let listed = search_document(query, total, ranked, limit)->Object_0;
    assert(listed.dom() =~= set!["query"@, "total_matches"@, "returned_models"@, "models"@]);
}

/// What is answered to a listing is the text, over several lines, of a document whose
/// total is the number of positions listed, cut to the limit of the listing.
pub proof fn answers_belong_to_their_listing(
    query: Seq<char>,
    listing: Listing,
    ranked: Seq<Value>,
) -> (documents: (Document, Document))
    ensures
        ({
            let (recommendations, matches) = documents;
            let returned = if listing.limit < ranked.len() {
                listing.limit as nat
            } else {
                ranked.len()
            };
            &&& recommend_text(listing, ranked) == pretty_or_empty(recommendations)
            &&& search_text(query, listing, ranked) == pretty_or_empty(matches)
            &&& recommendations->Object_0["total_models"@] == Document::Unsigned(
                listing.positions@.len(),
            )
            &&& recommendations->Object_0["returned_models"@] == Document::Unsigned(returned)
            &&& matches->Object_0["query"@] == Document::Text(query)
            &&& matches->Object_0["total_matches"@] == Document::Unsigned(listing.positions@.len())
            &&& matches->Object_0["returned_models"@] == Document::Unsigned(returned)
            &&& matches->Object_0["models"@] == recommendations->Object_0["models"@]
        }),
{
    lemma_member_names();
    (
        recommend_document(listing.positions@.len(), ranked, listing.limit as nat),
        search_document(query, listing.positions@.len(), ranked, listing.limit as nat),
    )
}

/// The hardware of a node is answered under its name, and nothing else is said.
pub proof fn nodes_are_named(node_name: Seq<char>, system: Value)
    ensures
        system_document(node_name, system) is Object,
        system_document(node_name, system)->Object_0.dom() == set!["node"@, "system"@],
        system_document(node_name, system)->Object_0["node"@] == Document::Text(node_name),
        system_document(node_name, system)->Object_0["system"@] == document(system),
{
    lemma_member_names();
    assert(system_document(node_name, system)->Object_0.dom() =~= set!["node"@, "system"@]);
}

/// A host that has a name keeps it; a blank one is unknown. So no node has a blank name.
pub proof fn nodes_keep_their_names(hostname: Option<String>)
    ensures
        hostname is Some && !is_blank(hostname->0@) ==> node_name_for(hostname) == hostname->0@,
        hostname is Some && is_blank(hostname->0@) ==> node_name_for(hostname) == "unknown-node"@,
        hostname is None ==> node_name_for(hostname) == "unknown-node"@,
        !is_blank(node_name_for(hostname)),
{
    if hostname is Some {
        lemma_blank_trimmed(hostname->0@);
    }
    reveal_strlit("unknown-node");
    assert(!is_white_space("unknown-node"@[0]));
}

/// Whether two names are the same but for the case of ASCII letters, character by
/// character.
pub open spec fn same_name(a: Seq<char>, b: Seq<char>) -> bool {
    &&& a.len() == b.len()
    &&& forall|i: int|
        0 <= i < a.len() ==> ({
            ||| #[trigger] a[i] == b[i]
            ||| 'A' <= a[i] <= 'Z' && b[i] as u32 == a[i] as u32 + 32
            ||| 'A' <= b[i] <= 'Z' && a[i] as u32 == b[i] as u32 + 32
        })
}

proof fn lemma_same_name(a: Seq<char>, b: Seq<char>)
    ensures
        lower_ascii_text(a) == lower_ascii_text(b) <==> same_name(a, b),
{
    let (x, y) = (lower_ascii_text(a), lower_ascii_text(b));
    if x == y {
        assert(x.len() == y.len());
        assert forall|i: int| 0 <= i < a.len() implies ({
            ||| #[trigger] a[i] == b[i]
            ||| 'A' <= a[i] <= 'Z' && b[i] as u32 == a[i] as u32 + 32
            ||| 'A' <= b[i] <= 'Z' && a[i] as u32 == b[i] as u32 + 32
        }) by {
            assert(x[i] == y[i]);
        }
    }
    if same_name(a, b) {
        assert forall|i: int| 0 <= i < x.len() implies x[i] == y[i] by {
            assert(a[i] == a[i]);
        }
        assert(x =~= y);
    }
}

/// A plan is estimated for the first model of the catalog with the name asked for, but
/// for the case of ASCII letters. It is refused exactly where there is none.
pub proof fn plans_are_for_the_first_of_the_name(
    models: Seq<LlmModel>,
    params: PlanHardwareParams,
    step: PlanStep,
)
    requires
        is_plan_step(models, params, step),
    ensures
        step is Answer <==> forall|i: int|
            0 <= i < models.len() ==> !same_name((#[trigger] models[i]).name@, params.model@),
        step matches PlanStep::Estimate(k, request) ==> {
            &&& k < models.len()
            &&& same_name(models[k as int].name@, params.model@)
            &&& forall|i: int|
                0 <= i < k ==> !same_name((#[trigger] models[i]).name@, params.model@)
        },
{
    assert forall|i: int| 0 <= i < models.len() implies has_name(
        #[trigger] models[i],
        params.model@,
    ) == same_name(models[i].name@, params.model@) by {
        lemma_same_name(models[i].name@, params.model@);
    }
    if step is Estimate {
        let k = step->Estimate_0 as int;
        assert(has_name(models[k], params.model@));
        assert(same_name(models[k].name@, params.model@));
    }
}

/// A plan is estimated for what the request says: the context is the one asked for, and
/// 8192 tokens where none is.
pub proof fn plans_are_what_was_asked_for(
    models: Seq<LlmModel>,
    params: PlanHardwareParams,
    step: PlanStep,
)
    requires
        is_plan_step(models, params, step),
        step is Estimate,
    ensures
        params.context is Some ==> step->Estimate_1.context == params.context->0,
        params.context is None ==> step->Estimate_1.context == 8192,
        step->Estimate_1.quant == params.quant,
        step->Estimate_1.target_tps == params.target_tps,
        step->Estimate_1.kv_quant is None,
{
}

/// A model that the catalog does not list is refused by an error on one line that
/// quotes the name.
pub proof fn unknown_models_are_quoted(
    models: Seq<LlmModel>,
    params: PlanHardwareParams,
    step: PlanStep,
) -> (answer: Document)
    requires
        is_plan_step(models, params, step),
        step is Answer,
    ensures
        step->Answer_0@ == compact_text(answer),
        answer is Object,
        answer->Object_0.dom() == set!["error"@],
        answer->Object_0["error"@] == Document::Text(
            "model '"@ + params.model@ + "' not found"@,
        ),
{
    let answer = error_document(unknown_model_message(params.model@));
    assert(answer->Object_0.dom() =~= set!["error"@]);
    answer
}

/// The case of the ASCII letters of a name does not matter to a plan.
pub proof fn plans_ignore_the_case_of_names(
    models: Seq<LlmModel>,
    a: PlanHardwareParams,
    b: PlanHardwareParams,
    x: PlanStep,
    y: PlanStep,
)
    requires
        same_name(a.model@, b.model@),
        is_plan_step(models, a, x),
        is_plan_step(models, b, y),
    ensures
        x is Estimate <==> y is Estimate,
        x is Estimate ==> x->Estimate_0 == y->Estimate_0,
{
    lemma_same_name(a.model@, b.model@);
    assert forall|i: int| 0 <= i < models.len() implies has_name(#[trigger] models[i], a.model@)
        == has_name(models[i], b.model@) by {}
    if x is Estimate {
        assert(has_name(models[x->Estimate_0 as int], a.model@));
    }
    if y is Estimate {
        assert(has_name(models[y->Estimate_0 as int], b.model@));
    }
    if x is Estimate && y is Estimate {
        let (i, j) = (x->Estimate_0 as int, y->Estimate_0 as int);
        assert(has_name(models[j], a.model@) && has_name(models[i], b.model@));
    }
}

/// An estimate is answered as it is, over several lines; a failure by an error on one
/// line that says why.
pub proof fn plans_are_answered_as_they_came(outcome: Result<Value, String>)
    ensures
        outcome is Ok ==> plan_text(outcome) == pretty_or_empty(document(outcome->Ok_0)),
        outcome is Err ==> plan_text(outcome) == compact_text(
            Document::Object(Map::empty().insert("error"@, Document::Text(outcome->Err_0@))),
        ),
{
}

/// The parameters of a profile stand before the default ones, and these count only
/// where there is no profile.
pub proof fn profiles_stand_before_the_default<C>(profile: Option<C>, a: C, b: C)
    ensures
        profile is Some ==> config_of(profile, a) == profile->0,
        profile is Some ==> config_of(profile, a) == config_of(profile, b),
        config_of(None, a) == a,
{
}

// What is installed.

/// What is answered of the runtimes is said of each list of probes by itself: the
/// answer to two lists, one after the other, is that to the first and then that to the
/// second.
pub proof fn runtimes_are_answered_one_by_one(
    a: Seq<Option<RuntimeInfo>>,
    b: Seq<Option<RuntimeInfo>>,
)
    ensures
        runtime_documents(a + b) == runtime_documents(a) + runtime_documents(b),
    decreases b.len(),
{
    if b.len() == 0 {
        assert(a + b =~= a);
        assert(runtime_documents(a) + runtime_documents(b) =~= runtime_documents(a));
    } else {
        runtimes_are_answered_one_by_one(a, b.drop_last());
        assert((a + b).drop_last() =~= a + b.drop_last());
        assert((a + b).last() == b.last());
        assert(runtime_documents(a + b) =~= runtime_documents(a) + runtime_documents(b));
    }
}

/// Whether `answer` says of a runtime its name and whether it is installed, and nothing
/// else.
pub open spec fn reports(answer: Document, name: Seq<char>, installed: bool) -> bool {
    &&& answer is Object
    &&& answer->Object_0.dom() == set!["name"@, "installed"@]
    &&& answer->Object_0["name"@] == Document::Text(name)
    &&& answer->Object_0["installed"@] == Document::Bool(installed)
}

/// Every probe that ended is reported with the name probed and the truth value that it
/// gave, in the order of the probes, and nothing else is. `at` holds the positions of
/// the probes that ended.
pub proof fn probes_are_reported_as_they_ended(results: Seq<Option<RuntimeInfo>>) -> (at: Seq<int>)
    ensures
        at.len() == runtime_documents(results).len(),
        forall|i: int, j: int| 0 <= i < j < at.len() ==> at[i] < at[j],
        forall|i: int|
            0 <= i < results.len() && (#[trigger] results[i]) is Some ==> at.contains(i),
        forall|k: int|
            0 <= k < at.len() ==> {
                &&& 0 <= #[trigger] at[k] < results.len()
                &&& results[at[k]] is Some
                &&& reports(
                    runtime_documents(results)[k],
                    results[at[k]]->0.name@,
                    results[at[k]]->0.installed,
                )
            },
        runtimes_text(results) == pretty_or_empty(
            Document::Object(
                Map::empty().insert("runtimes"@, Document::List(runtime_documents(results))),
            ),
        ),
    decreases results.len(),
{
    if results.len() == 0 {
        Seq::empty()
    } else {
        let n = results.len() - 1;
        let shorter = results.drop_last();
        let before = probes_are_reported_as_they_ended(shorter);
        let documents = runtime_documents(results);
        assert forall|k: int| 0 <= k < before.len() implies {
            &&& 0 <= #[trigger] before[k] < n
            &&& results[before[k]] is Some
            &&& reports(
                documents[k],
                results[before[k]]->0.name@,
                results[before[k]]->0.installed,
            )
        } by {
            assert(shorter[before[k]] == results[before[k]]);
            assert(documents[k] == runtime_documents(shorter)[k]);
        }
        assert forall|i: int| 0 <= i < n && (#[trigger] results[i]) is Some implies before.contains(
            i,
        ) by {
            assert(shorter[i] == results[i]);
        }
        match results[n] {
            Some(info) => {
                lemma_member_names();
                let at = before.push(n);
                assert(runtime_document(info)->Object_0.dom() =~= set!["name"@, "installed"@]);
                assert(reports(documents[before.len() as int], info.name@, info.installed));
                assert forall|i: int|
                    0 <= i < results.len() && (#[trigger] results[i]) is Some implies at.contains(
                    i,
                ) by {
                    if i < n {
                        assert(before.contains(i));
                        let k = choose|k: int| 0 <= k < before.len() && before[k] == i;
                        assert(at[k] == i);
                    } else {
                        assert(at[at.len() - 1] == i);
                    }
                }
                at
            },
            None => before,
        }
    }
}

/// Answers tell probes apart: where two lists of probes differ in whether a runtime is
/// installed, or in its name, the answers differ.
pub proof fn answers_tell_probes_apart(
    a: Seq<Option<RuntimeInfo>>,
    b: Seq<Option<RuntimeInfo>>,
    k: int,
)
    requires
        a.len() == b.len(),
        forall|i: int| 0 <= i < a.len() ==> (#[trigger] a[i]) is Some,
        forall|i: int| 0 <= i < b.len() ==> (#[trigger] b[i]) is Some,
        0 <= k < a.len(),
        a[k]->0.installed != b[k]->0.installed || a[k]->0.name@ != b[k]->0.name@,
    ensures
        runtime_documents(a)[k] != runtime_documents(b)[k],
        list_document("runtimes"@, runtime_documents(a)) != list_document(
            "runtimes"@,
            runtime_documents(b),
        ),
{
    lemma_all_reported(a, k);
    lemma_all_reported(b, k);
    let (x, y) = (runtime_documents(a), runtime_documents(b));
    assert(x[k] != y[k]);
    let (u, v) = (list_document("runtimes"@, x), list_document("runtimes"@, y));
    assert(u->Object_0["runtimes"@] == Document::List(x));
    assert(v->Object_0["runtimes"@] == Document::List(y));
}

/// Where every probe ended, each has the place of its probe in the answer.
proof fn lemma_all_reported(results: Seq<Option<RuntimeInfo>>, k: int)
    requires
        forall|i: int| 0 <= i < results.len() ==> (#[trigger] results[i]) is Some,
        0 <= k < results.len(),
    ensures
        runtime_documents(results).len() == results.len(),
        reports(
            runtime_documents(results)[k],
            results[k]->0.name@,
            results[k]->0.installed,
        ),
    decreases results.len(),
{
    let shorter = results.drop_last();
    assert(forall|i: int| 0 <= i < shorter.len() ==> #[trigger] shorter[i] == results[i]);
    let n = results.len() - 1;
    assert(results[n] is Some);
    if shorter.len() > 0 {
        lemma_all_reported(shorter, if k < n { k } else { 0 });
    }
    lemma_member_names();
    assert(runtime_document(results[n]->0)->Object_0.dom() =~= set!["name"@, "installed"@]);
}

/// The runtimes looked for are these seven.
pub proof fn seven_runtimes_are_looked_for(name: Seq<char>)
    ensures
        known_runtimes().len() == 7,
        known_runtimes().contains(name) <==> name == "ollama"@ || name == "mlx"@ || name
            == "llamacpp"@ || name == "docker_model_runner"@ || name == "lmstudio"@ || name
            == "vllm"@ || name == "ramalama"@,
{
    let names = known_runtimes();
    assert(names[0] == "ollama"@ && names[1] == "mlx"@ && names[2] == "llamacpp"@);
    assert(names[3] == "docker_model_runner"@ && names[4] == "lmstudio"@ && names[5] == "vllm"@);
    assert(names[6] == "ramalama"@);
}

/// What the runtimes have is listed report by report: that of two lists of reports, one
/// after the other, is that of the first and then that of the second.
pub proof fn installed_models_are_listed_report_by_report(
    a: Seq<Option<ProviderReport>>,
    b: Seq<Option<ProviderReport>>,
)
    ensures
        available_pairs(a + b) == available_pairs(a) + available_pairs(b),
    decreases b.len(),
{
    if b.len() == 0 {
        assert(a + b =~= a);
        assert(available_pairs(a) + available_pairs(b) =~= available_pairs(a));
    } else {
        installed_models_are_listed_report_by_report(a, b.drop_last());
        assert((a + b).drop_last() =~= a + b.drop_last());
        assert((a + b).last() == b.last());
        assert(available_pairs(a + b) =~= available_pairs(a) + available_pairs(b));
    }
}

/// One report lists the models that it names, in order and each with the runtime, if
/// the runtime is there; else, as a probe that failed, it lists nothing.
pub proof fn one_report_lists_what_it_names(report: Option<ProviderReport>, j: int)
    ensures
        ({
            let pairs = available_pairs(seq![report]);
            &&& report is Some && report->0.available ==> {
                &&& pairs.len() == report->0.installed@.len()
                &&& 0 <= j < pairs.len() ==> pairs[j].0 == report->0.installed@[j]@ && pairs[j].1
                    == report->0.name@
            }
            &&& report is None || !report->0.available ==> pairs.len() == 0
        }),
{
    let one = seq![report];
    assert(one.drop_last() =~= Seq::empty());
    assert(available_pairs(one.drop_last()).len() == 0);
}

/// Every installed model is answered with its name and its runtime, in order, and
/// nothing else is said.
pub proof fn installed_models_are_answered_with_their_runtime(
    results: Seq<Option<ProviderReport>>,
) -> (answer: Seq<Document>)
    ensures
        installed_text(results) == pretty_or_empty(
            Document::Object(Map::empty().insert("models"@, Document::List(answer))),
        ),
        answer.len() == available_pairs(results).len(),
        forall|k: int|
            0 <= k < answer.len() ==> {
                &&& (#[trigger] answer[k]) is Object
                &&& answer[k]->Object_0.dom() == set!["name"@, "runtime"@]
                &&& answer[k]->Object_0["name"@] == Document::Text(available_pairs(results)[k].0)
                &&& answer[k]->Object_0["runtime"@] == Document::Text(available_pairs(results)[k].1)
            },
{
    lemma_member_names();
    let pairs = available_pairs(results);
    let answer = pairs.map_values(|pair: (Seq<char>, Seq<char>)| installed_document(pair));
    assert forall|k: int| 0 <= k < answer.len() implies {
        &&& (#[trigger] answer[k]) is Object
        &&& answer[k]->Object_0.dom() == set!["name"@, "runtime"@]
        &&& answer[k]->Object_0["name"@] == Document::Text(pairs[k].0)
        &&& answer[k]->Object_0["runtime"@] == Document::Text(pairs[k].1)
    } by {
        assert(answer[k] == installed_document(pairs[k]));
        assert(answer[k]->Object_0.dom() =~= set!["name"@, "runtime"@]);
    }
    answer
}

/// The models of detected runtimes are those of reports that all are there.
pub proof fn detected_models_are_those_of_available_runtimes(
    detected: Seq<(&'static str, Vec<String>)>,
    reports: Seq<Option<ProviderReport>>,
)
    requires
        detected.len() == reports.len(),
        forall|i: int|
            0 <= i < detected.len() ==> {
                &&& (#[trigger] reports[i]) is Some
                &&& reports[i]->0.available
                &&& reports[i]->0.name@ == detected[i].0@
                &&& reports[i]->0.installed@ == detected[i].1@
            },
    ensures
        installed_pairs(detected) == available_pairs(reports),
    decreases detected.len(),
{
    if detected.len() > 0 {
        let n = detected.len() - 1;
        let (a, b) = (detected.drop_last(), reports.drop_last());
        assert forall|i: int| 0 <= i < a.len() implies {
            &&& (#[trigger] b[i]) is Some
            &&& b[i]->0.available
            &&& b[i]->0.name@ == a[i].0@
            &&& b[i]->0.installed@ == a[i].1@
        } by {
            assert(b[i] == reports[i] && a[i] == detected[i]);
        }
        detected_models_are_those_of_available_runtimes(a, b);
        assert(reports[n] is Some);
    }
}

/// Words are the same where they have one lower case without the white space around
/// them, and differ where they have not.
pub proof fn keywords_have_one_lower_case(a: Seq<char>, b: Seq<char>)
    ensures
        keyword(a) == keyword(b) <==> lowercase(trimmed(a)) == lowercase(trimmed(b)),
{
}

/// A field of a request says what is written in it, and nothing where it is left out.
pub proof fn fields_say_what_is_written(field: Option<String>, text: Option<&str>)
    ensures
        field is Some ==> field_of(field) == Some(field->0@),
        field is None ==> field_of(field) is None,
        text is Some ==> text_of(text) == Some(text->0@),
        text is None ==> text_of(text) is None,
{
}

/// The models of detected runtimes carry the name and the runtime, each in its field.
pub proof fn installed_models_carry_name_and_runtime(
    models: Seq<InstalledModel>,
    detected: Seq<(&'static str, Vec<String>)>,
    k: int,
)
    requires
        models.map_values(|m: InstalledModel| installed_pair(m)) == installed_pairs(detected),
        0 <= k < models.len(),
    ensures
        models.len() == installed_pairs(detected).len(),
        models[k].name@ == installed_pairs(detected)[k].0,
        models[k].runtime@ == installed_pairs(detected)[k].1,
{
    let pairs = models.map_values(|m: InstalledModel| installed_pair(m));
    assert(pairs.len() == models.len());
    assert(pairs[k] == installed_pair(models[k]));
}

} // verus!
