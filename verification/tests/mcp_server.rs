//! What the server lists and answers.

use llmfit::binary64::Binary64;
use llmfit::fit::{
    FitLevel, GpuBackend, InferenceRuntime, LlmModel, ModelFit, SortColumn, SystemSpecs, UseCase,
};
use llmfit::mcp_server::{
    fit_at_least, installed_models_from_results, node_name_from, parse_min_fit, parse_runtime,
    parse_sort, parse_use_case, plan_response, recommend_answer, recommend_response,
    runtimes_to_probe, search_answer, search_response, Listing, LlmfitMcpServer, PlanHardwareParams, PlanStep, ProviderReport, RecommendModelsParams,
    RuntimeInfo, SearchModelsParams,
};
use serde_json::Value;

#[derive(Clone, Debug, Default, PartialEq)]
struct CalcConfig {
    gpu_bandwidth_gbps_override: Option<f64>,
    efficiency: f64,
}

fn model(name: &str, mlx_only: bool) -> LlmModel {
    LlmModel {
        name: name.to_string(),
        provider: "Storage970".to_string(),
        parameter_count: "8B".to_string(),
        use_case: "general purpose".to_string(),
        mlx_only,
    }
}

fn fit(name: &str, level: FitLevel, runtime: InferenceRuntime, use_case: UseCase) -> ModelFit {
    ModelFit {
        model: model(name, false),
        best_quant: "Q4_K_M".to_string(),
        fit_level: level,
        runtime,
        use_case,
        use_case_label: "Label".to_string(),
        score: Binary64::from_bits(90f64.to_bits()),
        disk_size_gb: Binary64::from_bits(4.64f64.to_bits()),
        effective_context_length: 8192,
    }
}

fn server(backend: GpuBackend, unified_memory: bool) -> LlmfitMcpServer<CalcConfig> {
    LlmfitMcpServer::new(
        SystemSpecs {
            unified_memory,
            backend,
        },
        vec![model("org/Alpha-8B", false), model("org/alpha-8b", false), model("b", true)],
        Some(4096),
        Some(CalcConfig {
            gpu_bandwidth_gbps_override: Some(777.0),
            efficiency: 0.5,
        }),
        "test-node".to_string(),
    )
}

fn no_filter() -> RecommendModelsParams {
    RecommendModelsParams {
        limit: None,
        use_case: None,
        min_fit: None,
        runtime: None,
        license: None,
        sort: None,
    }
}

fn json(text: &str) -> Value {
    serde_json::from_str(text).expect("JSON")
}

#[test]
fn a_server_holds_what_it_was_made_with() {
    let s = server(GpuBackend::Rocm, true);
    assert_eq!(s.specs.backend, GpuBackend::Rocm);
    assert!(s.specs.unified_memory);
    assert_eq!(s.models.len(), 3);
    assert_eq!(s.context_limit, Some(4096));
    assert_eq!(
        s.calc_config,
        Some(CalcConfig {
            gpu_bandwidth_gbps_override: Some(777.0),
            efficiency: 0.5,
        })
    );
    assert_eq!(s.node_name, "test-node");
}

#[test]
fn keywords_are_read_in_any_case_and_padding() {
    assert_eq!(parse_sort(None), SortColumn::Score);
    assert_eq!(parse_sort(Some(" TPS ")), SortColumn::Tps);
    assert_eq!(parse_sort(Some("Throughput")), SortColumn::Tps);
    assert_eq!(parse_sort(Some("to\u{212a}ens")), SortColumn::Tps);
    assert_eq!(parse_sort(Some("parameters")), SortColumn::Params);
    assert_eq!(parse_sort(Some("mem_pct")), SortColumn::MemPct);
    assert_eq!(parse_sort(Some("CONTEXT")), SortColumn::Ctx);
    assert_eq!(parse_sort(Some("release")), SortColumn::ReleaseDate);
    assert_eq!(parse_sort(Some("use_case")), SortColumn::UseCase);
    assert_eq!(parse_sort(Some("nonsense")), SortColumn::Score);
    assert_eq!(parse_min_fit(None), None);
    assert_eq!(parse_min_fit(Some("PERFECT\n")), Some(FitLevel::Perfect));
    assert_eq!(parse_min_fit(Some("good")), Some(FitLevel::Good));
    assert_eq!(parse_min_fit(Some("marginal")), Some(FitLevel::Marginal));
    assert_eq!(parse_min_fit(Some("?")), Some(FitLevel::Marginal));
    assert_eq!(parse_runtime(None), None);
    assert_eq!(parse_runtime(Some("MLX")), Some(InferenceRuntime::Mlx));
    assert_eq!(parse_runtime(Some("llama.cpp")), Some(InferenceRuntime::LlamaCpp));
    assert_eq!(parse_runtime(Some("vLLM")), Some(InferenceRuntime::Vllm));
    assert_eq!(parse_runtime(Some("ollama")), None);
    assert_eq!(parse_use_case(None), None);
    assert_eq!(parse_use_case(Some("Code")), Some(UseCase::Coding));
    assert_eq!(parse_use_case(Some("reason")), Some(UseCase::Reasoning));
    assert_eq!(parse_use_case(Some("chat")), Some(UseCase::Chat));
    assert_eq!(parse_use_case(Some("VISION")), Some(UseCase::Multimodal));
    assert_eq!(parse_use_case(Some("embed")), Some(UseCase::Embedding));
    assert_eq!(parse_use_case(Some(" general")), Some(UseCase::General));
    assert_eq!(parse_use_case(Some("gaming")), None);
}

#[test]
fn fit_levels_are_ordered_from_perfect_down() {
    let levels = [FitLevel::TooTight, FitLevel::Marginal, FitLevel::Good, FitLevel::Perfect];
    for (i, &a) in levels.iter().enumerate() {
        for (j, &b) in levels.iter().enumerate() {
            assert_eq!(fit_at_least(a, b), i >= j);
        }
    }
}

#[test]
fn recommendations_pass_every_filter() {
    let s = server(GpuBackend::Cuda, false);
    let mut mlx = fit("m/mlx", FitLevel::Perfect, InferenceRuntime::LlamaCpp, UseCase::Coding);
    mlx.model.mlx_only = true;
    let fits = vec![
        fit("m/0", FitLevel::TooTight, InferenceRuntime::LlamaCpp, UseCase::Coding),
        fit("m/1", FitLevel::Marginal, InferenceRuntime::LlamaCpp, UseCase::Coding),
        fit("m/2", FitLevel::Good, InferenceRuntime::Vllm, UseCase::Coding),
        fit("m/3", FitLevel::Perfect, InferenceRuntime::LlamaCpp, UseCase::Chat),
        mlx,
    ];
    assert_eq!(s.analyze_all(&fits), vec![0, 1, 2, 3]);
    assert_eq!(server(GpuBackend::Metal, true).analyze_all(&fits), vec![0, 1, 2, 3, 4]);
    assert_eq!(server(GpuBackend::Metal, false).analyze_all(&fits), vec![0, 1, 2, 3]);
    let all = s.recommend_models(&no_filter(), &fits, &vec![]);
    assert_eq!(all.positions, vec![1, 2, 3]);
    assert_eq!(all.limit, 10);
    assert_eq!(all.sort_column, SortColumn::Score);
    let mut params = no_filter();
    params.min_fit = Some("good".to_string());
    params.limit = Some(1);
    params.sort = Some("ctx".to_string());
    let good = s.recommend_models(&params, &fits, &vec![]);
    assert_eq!(good.positions, vec![2, 3]);
    assert_eq!(good.limit, 1);
    assert_eq!(good.sort_column, SortColumn::Ctx);
    params.min_fit = Some("anything".to_string());
    assert_eq!(s.recommend_models(&params, &fits, &vec![]).positions, vec![1, 2, 3]);
    params.runtime = Some("vllm".to_string());
    assert_eq!(s.recommend_models(&params, &fits, &vec![]).positions, vec![2]);
    params.runtime = Some("unknown".to_string());
    params.use_case = Some("chat".to_string());
    assert_eq!(s.recommend_models(&params, &fits, &vec![]).positions, vec![3]);
    let mut params = no_filter();
    params.license = Some("mit".to_string());
    let allows = vec![true, false, true, true, true];
    assert_eq!(s.recommend_models(&params, &fits, &allows).positions, vec![2, 3]);
}

#[test]
fn searches_match_any_text_in_any_case() {
    let s = server(GpuBackend::Cuda, false);
    let mut labelled = fit("m/éa", FitLevel::Good, InferenceRuntime::Vllm, UseCase::Chat);
    labelled.use_case_label = "Multimodal".to_string();
    let fits = vec![
        fit("org/Qwen-8B", FitLevel::Good, InferenceRuntime::Vllm, UseCase::Chat),
        fit("org/qwen-tight", FitLevel::TooTight, InferenceRuntime::Vllm, UseCase::Chat),
        labelled,
    ];
    let find = |query: &str| {
        let params = SearchModelsParams {
            query: query.to_string(),
            limit: Some(2),
        };
        let listing = s.search_models(&params, &fits);
        assert_eq!(listing.sort_column, SortColumn::Score);
        assert_eq!(listing.limit, 2);
        listing.positions
    };
    assert_eq!(find("QWEN"), vec![0]);
    assert_eq!(find("storage970"), vec![0, 2]);
    assert_eq!(find("8b"), vec![0, 2]);
    assert_eq!(find("Purpose"), vec![0, 2]);
    assert_eq!(find("multiMODAL"), vec![2]);
    assert_eq!(find("ÉA"), vec![2]);
    assert_eq!(find(""), vec![0, 2]);
    assert!(find("absent").is_empty());
}

#[test]
fn lists_are_cut_to_the_limit() {
    let ranked = vec![Value::from("a"), Value::from("b"), Value::from("c")];
    let page = json(&recommend_response(7, ranked.clone(), 2));
    assert_eq!(page["total_models"], 7);
    assert_eq!(page["returned_models"], 2);
    assert_eq!(page["models"], Value::from(vec!["a", "b"]));
    let page = json(&search_response("Que\"ry", 3, ranked, 9));
    assert_eq!(page["query"], "Que\"ry");
    assert_eq!(page["total_matches"], 3);
    assert_eq!(page["returned_models"], 3);
    assert_eq!(page["models"], Value::from(vec!["a", "b", "c"]));
}

#[test]
fn answers_count_their_listing() {
    let listing = Listing {
        positions: vec![4, 1, 2],
        sort_column: SortColumn::Score,
        limit: 2,
    };
    let ranked = vec![Value::from("a"), Value::from("b"), Value::from("c")];
    let page = json(&recommend_answer(&listing, ranked.clone()));
    assert_eq!(page["total_models"], 3);
    assert_eq!(page["returned_models"], 2);
    assert_eq!(page["models"], Value::from(vec!["a", "b"]));
    let params = SearchModelsParams {
        query: "Qwen".to_string(),
        limit: Some(2),
    };
    let page = json(&search_answer(&params, &listing, ranked));
    assert_eq!(page["query"], "Qwen");
    assert_eq!(page["total_matches"], 3);
    assert_eq!(page["returned_models"], 2);
    assert_eq!(page["models"], Value::from(vec!["a", "b"]));
}

#[test]
fn ascii_queries_find_the_same_in_any_case() {
    let s = server(GpuBackend::Cuda, false);
    for code in 0..0x80u8 {
        let c = code as char;
        let name = format!("<{c}>");
        let fits = vec![fit(&name, FitLevel::Good, InferenceRuntime::Vllm, UseCase::Chat)];
        for query in [c.to_ascii_lowercase(), c.to_ascii_uppercase()] {
            let params = SearchModelsParams {
                query: format!("<{query}>"),
                limit: None,
            };
            assert_eq!(s.search_models(&params, &fits).positions, vec![0], "{code}");
        }
        let other = if c.to_ascii_lowercase() == 'x' { 'y' } else { 'x' };
        let params = SearchModelsParams {
            query: format!("<{other}>"),
            limit: None,
        };
        assert!(s.search_models(&params, &fits).positions.is_empty(), "{code}");
    }
}

#[test]
fn the_empty_query_lists_what_is_recommended() {
    for (backend, unified) in [(GpuBackend::Cuda, false), (GpuBackend::Metal, true)] {
        let s = server(backend, unified);
        let mut mlx = fit("m/mlx", FitLevel::Perfect, InferenceRuntime::Mlx, UseCase::Coding);
        mlx.model.mlx_only = true;
        let fits = vec![
            fit("m/0", FitLevel::TooTight, InferenceRuntime::LlamaCpp, UseCase::Coding),
            mlx,
            fit("m/2", FitLevel::Marginal, InferenceRuntime::Vllm, UseCase::General),
            fit("", FitLevel::Good, InferenceRuntime::Vllm, UseCase::General),
        ];
        let mut filter = no_filter();
        filter.limit = Some(1);
        let params = SearchModelsParams {
            query: String::new(),
            limit: Some(1),
        };
        let listed = s.recommend_models(&filter, &fits, &vec![]);
        let found = s.search_models(&params, &fits);
        assert_eq!(found.positions, listed.positions);
        assert_eq!(found.sort_column, listed.sort_column);
        assert_eq!(found.limit, listed.limit);
        let ranked = vec![Value::from("a"), Value::from("b")];
        let x = json(&recommend_answer(&listed, ranked.clone()));
        let y = json(&search_answer(&params, &found, ranked));
        assert_eq!(x["total_models"], y["total_matches"]);
        assert_eq!(x["returned_models"], y["returned_models"]);
        assert_eq!(x["models"], y["models"]);
    }
}

#[test]
fn plans_fall_back_to_the_default_parameters() {
    let default = CalcConfig::default();
    let mut s = server(GpuBackend::Cuda, false);
    let profile = s.calc_config.clone().expect("a profile");
    assert_eq!(s.plan_config(&default), &profile);
    assert_ne!(profile, default);
    s.calc_config = None;
    assert_eq!(s.plan_config(&default), &default);
}

#[test]
fn the_number_returned_is_the_smaller_of_limit_and_total() {
    for total in 0..4usize {
        for limit in [0, 1, 2, 3, 4, usize::MAX] {
            let listing = Listing {
                positions: (0..total).collect(),
                sort_column: SortColumn::Score,
                limit,
            };
            let ranked = vec![Value::from("m"); total];
            let params = SearchModelsParams {
                query: "m".to_string(),
                limit: Some(limit),
            };
            let listed = json(&recommend_answer(&listing, ranked.clone()));
            let found = json(&search_answer(&params, &listing, ranked));
            assert_eq!(listed["total_models"], total);
            assert_eq!(found["total_matches"], total);
            for answer in [listed, found] {
                assert_eq!(answer["returned_models"], limit.min(total));
                assert_eq!(answer["models"].as_array().expect("array").len(), limit.min(total));
            }
        }
    }
}

#[test]
fn answers_are_pretty_and_errors_compact() {
    let text = recommend_response(0, vec![], 5);
    assert_eq!(
        text,
        "{\n  \"models\": [],\n  \"returned_models\": 0,\n  \"total_models\": 0\n}"
    );
    assert_eq!(plan_response(Err("no".to_string())), "{\"error\":\"no\"}");
    assert_eq!(plan_response(Ok(Value::from(vec![true]))), "[\n  true\n]");
}

#[test]
fn plans_are_for_the_first_model_of_the_name() {
    let s = server(GpuBackend::Cuda, false);
    let params = |name: &str| PlanHardwareParams {
        model: name.to_string(),
        context: None,
        quant: Some("q8_0".to_string()),
        target_tps: None,
    };
    match s.plan_hardware(&params("ORG/ALPHA-8b")) {
        PlanStep::Estimate(k, request) => {
            assert_eq!(k, 0);
            assert_eq!(request.context, 8192);
            assert_eq!(request.quant, Some("q8_0".to_string()));
            assert!(request.target_tps.is_none());
            assert!(request.kv_quant.is_none());
        }
        PlanStep::Answer(_) => panic!("the model is there"),
    }
    let mut wide = params("b");
    wide.context = Some(1024);
    match s.plan_hardware(&wide) {
        PlanStep::Estimate(k, request) => {
            assert_eq!(k, 2);
            assert_eq!(request.context, 1024);
        }
        PlanStep::Answer(_) => panic!("the model is there"),
    }
    match s.plan_hardware(&params("none")) {
        PlanStep::Answer(text) => assert_eq!(text, "{\"error\":\"model 'none' not found\"}"),
        PlanStep::Estimate(_, _) => panic!("there is no such model"),
    }
}

#[test]
fn system_specs_name_the_node() {
    let answer = json(&server(GpuBackend::Cuda, false).get_system_specs(Value::from("box")));
    assert_eq!(answer["node"], "test-node");
    assert_eq!(answer["system"], "box");
}

#[test]
fn runtime_discovery_includes_ramalama() {
    let results = runtimes_to_probe()
        .into_iter()
        .map(|name| {
            Some(RuntimeInfo {
                name,
                installed: false,
            })
        })
        .collect();
    let output = server(GpuBackend::Cuda, false).get_runtimes(results);
    let value: Value = serde_json::from_str(&output).expect("runtime output should be JSON");
    let runtimes = value
        .get("runtimes")
        .and_then(Value::as_array)
        .expect("runtime output should contain an array");

    assert!(
        runtimes
            .iter()
            .any(|runtime| { runtime.get("name").and_then(Value::as_str) == Some("ramalama") })
    );
    assert_eq!(runtimes.len(), 7);
}

#[test]
fn failed_probes_are_not_listed() {
    let output = server(GpuBackend::Cuda, false).get_runtimes(vec![
        None,
        Some(RuntimeInfo {
            name: "vllm",
            installed: true,
        }),
    ]);
    let value = json(&output);
    assert_eq!(value["runtimes"].as_array().expect("array").len(), 1);
    assert_eq!(value["runtimes"][0]["name"], "vllm");
    assert_eq!(value["runtimes"][0]["installed"], true);
}

#[test]
fn installed_model_discovery_returns_json_when_providers_are_unavailable() {
    let results = runtimes_to_probe()
        .into_iter()
        .map(|name| {
            Some(ProviderReport {
                name,
                available: false,
                installed: vec![],
            })
        })
        .collect();
    let output = server(GpuBackend::Cuda, false).get_installed_models(results);
    let value: Value =
        serde_json::from_str(&output).expect("installed model output should be JSON");
    let models = value
        .get("models")
        .and_then(Value::as_array)
        .expect("installed model output should contain an array");

    assert!(models.iter().all(|model| {
        model.get("name").and_then(Value::as_str).is_some()
            && model.get("runtime").and_then(Value::as_str).is_some()
    }));
}

#[test]
fn installed_model_discovery_preserves_ramalama_model_identity() {
    let models =
        installed_models_from_results(vec![("ramalama", vec!["model-x".to_string()])]);

    assert_eq!(models.len(), 1);
    assert_eq!(models[0].runtime, "ramalama");
    assert_eq!(models[0].name, "model-x");
}

#[test]
fn installed_models_are_those_of_available_runtimes() {
    let results = vec![
        Some(ProviderReport {
            name: "ollama",
            available: true,
            installed: vec!["a".to_string(), "b".to_string()],
        }),
        None,
        Some(ProviderReport {
            name: "mlx",
            available: false,
            installed: vec!["c".to_string()],
        }),
        Some(ProviderReport {
            name: "vllm",
            available: true,
            installed: vec!["a".to_string()],
        }),
    ];
    let value = json(&server(GpuBackend::Cuda, false).get_installed_models(results));
    let models = value["models"].as_array().expect("array");
    let pairs: Vec<(&str, &str)> = models
        .iter()
        .map(|m| (m["name"].as_str().expect("name"), m["runtime"].as_str().expect("runtime")))
        .collect();
    assert_eq!(pairs, vec![("a", "ollama"), ("b", "ollama"), ("a", "vllm")]);
}

#[test]
fn no_runtime_is_probed_twice() {
    let names = runtimes_to_probe();
    for i in 0..names.len() {
        for j in 0..i {
            assert_ne!(names[i], names[j]);
        }
    }
}

#[test]
fn blank_host_names_are_unknown() {
    assert_eq!(node_name_from(None), "unknown-node");
    assert_eq!(node_name_from(Some(" \t".to_string())), "unknown-node");
    assert_eq!(node_name_from(Some(" box ".to_string())), " box ");
}
