//! Libraries of models and the drives that hold them.

use llmfit::binary64::Binary64;
use llmfit::fit::{FitLevel, InferenceRuntime, LlmModel, ModelFit, UseCase};
use llmfit::storage::{
    estimate_storage, next_tier, ScratchPolicy, StorageModelEstimate, StorageRequest,
    StorageSelection, SSD_TIERS_GB,
};
use llmfit::storage_size::parse_storage_size;

fn gb(x: f64) -> Binary64 {
    Binary64::from_bits(x.to_bits())
}

fn number(x: Binary64) -> f64 {
    f64::from_bits(x.to_bits())
}

fn bytes_per_param(quant: &str) -> f64 {
    match quant {
        "mlx-8bit" | "AutoRound-8bit" => 1.0,
        "AutoRound-4bit" => 0.5,
        "Q8_0" => 1.05,
        "Q4_K_M" => 0.58,
        "Q2_K" => 0.37,
        _ => unreachable!(),
    }
}

fn fit(name: &str, params_b: f64, quant: &str, score: f64) -> ModelFit {
    ModelFit {
        model: LlmModel {
            name: name.to_string(),
            provider: "fixture".to_string(),
            parameter_count: format!("{params_b}B"),
            use_case: "general".to_string(),
            mlx_only: false,
        },
        best_quant: quant.to_string(),
        fit_level: FitLevel::Good,
        runtime: InferenceRuntime::LlamaCpp,
        use_case: UseCase::General,
        use_case_label: "General".to_string(),
        score: gb(score),
        disk_size_gb: gb(params_b * bytes_per_param(quant)),
        effective_context_length: 8192,
    }
}

fn close(actual: Binary64, expected: f64) {
    let actual = number(actual);
    assert!((actual - expected).abs() < 1e-9, "{actual} != {expected}");
}

#[test]
fn formula_counts_weights_and_one_largest_download() {
    let report = estimate_storage(
        vec![
            fit("fixture/moe", 120.0, "mlx-8bit", 90.0),
            fit("fixture/b", 100.0, "mlx-8bit", 80.0),
            fit("fixture/c", 80.0, "mlx-8bit", 70.0),
        ],
        &StorageRequest::default(),
    )
    .expect("report");
    close(report.library_gb, 300.0);
    close(report.download_scratch_gb, 120.0);
    close(report.need_gb, 520.0);
    close(report.target_capacity_gb, 520.0 / 0.85);
    assert_eq!(report.minimum_ssd_gb, Some(1000));
    assert_eq!(report.suggested_ssd_gb, Some(1000));
    assert!(report.warnings.is_empty());
}

#[test]
fn autoround_weights_and_scratch_choose_correct_ssd_tier() {
    for (quant, expected_weights, expected_tier) in [
        ("AutoRound-8bit", 34.1311488, 512),
        ("AutoRound-4bit", 17.0655744, 256),
    ] {
        let candidate = fit("fixture/AutoRound-35B", 34.1311488, quant, 90.0);
        for selection in [StorageSelection::Score, StorageSelection::Largest] {
            let report = estimate_storage(
                vec![candidate.clone()],
                &StorageRequest {
                    keep: 1,
                    selection,
                    os_reserve_gb: gb(200.0),
                    headroom_percent: 0,
                    ..StorageRequest::default()
                },
            )
            .expect("AutoRound library");
            assert_eq!(report.minimum_ssd_gb, Some(expected_tier));
            assert_eq!(report.suggested_ssd_gb, Some(expected_tier));
            close(report.library_gb, expected_weights);
            close(report.download_scratch_gb, expected_weights);
            close(report.need_gb, 200.0 + 2.0 * expected_weights);
        }
    }
}

#[test]
fn selection_uses_score_or_quantized_disk_not_parameter_count() {
    let candidates = vec![
        fit("fixture/high-score", 8.0, "Q4_K_M", 95.0),
        fit("fixture/largest", 7.0, "Q8_0", 70.0),
        fit("fixture/most-params", 10.0, "Q2_K", 60.0),
    ];
    let mut request = StorageRequest {
        keep: 1,
        ..StorageRequest::default()
    };
    let score = estimate_storage(candidates.clone(), &request).expect("report");
    assert_eq!(score.models[0].name, "fixture/high-score");
    close(score.library_gb, 4.64);
    request.selection = StorageSelection::Largest;
    let largest = estimate_storage(candidates, &request).expect("report");
    assert_eq!(largest.models[0].name, "fixture/largest");
    close(largest.library_gb, 7.35);
}

#[test]
fn ties_and_duplicate_identities_are_deterministic() {
    let a = fit("fixture/a", 8.0, "Q4_K_M", 90.0);
    let b = fit("fixture/b", 8.0, "Q4_K_M", 90.0);
    let duplicate = a.clone();
    for selection in [StorageSelection::Score, StorageSelection::Largest] {
        let request = StorageRequest {
            keep: 1,
            selection,
            ..StorageRequest::default()
        };
        for candidates in [
            vec![b.clone(), duplicate.clone(), a.clone()],
            vec![a.clone(), duplicate.clone(), b.clone()],
        ] {
            let report = estimate_storage(candidates, &request).expect("report");
            assert_eq!(report.eligible_count, 2);
            assert_eq!(report.models[0].name, "fixture/a");
        }
    }
    let conflict = fit("fixture/a", 8.0, "Q8_0", 90.0);
    assert!(
        estimate_storage(vec![a, conflict], &StorageRequest::default())
            .expect_err("duplicate conflict")
            .contains("Conflicting")
    );
}

#[test]
fn different_catalog_repositories_with_the_same_slug_remain_distinct() {
    let hf = fit("microsoft/phi-3-mini-4k-instruct", 3.82, "mlx-8bit", 80.0);
    let onnx = fit("onnx-community/Phi-3-mini-4k-instruct", 3.8, "Q8_0", 85.0);
    for selection in [StorageSelection::Score, StorageSelection::Largest] {
        let request = StorageRequest {
            keep: 2,
            selection,
            ..StorageRequest::default()
        };
        let first = estimate_storage(vec![hf.clone(), onnx.clone()], &request)
            .expect("different repositories are not conflicting duplicates");
        let reversed =
            estimate_storage(vec![onnx.clone(), hf.clone()], &request).expect("reversed catalog");
        assert_eq!(first.selected_count, 2);
        assert_eq!(first.eligible_count, 2);
        assert_eq!(first.models, reversed.models);
        close(first.library_gb, 3.82 + 3.99);
    }
}

#[test]
fn filters_precede_selection_and_partial_results_are_explicit() {
    let mut tight = fit("fixture/tight", 500.0, "Q4_K_M", 100.0);
    tight.fit_level = FitLevel::TooTight;
    let mut perfect = fit("fixture/perfect", 8.0, "Q4_K_M", 80.0);
    perfect.fit_level = FitLevel::Perfect;
    let mut marginal = fit("fixture/marginal", 8.0, "Q4_K_M", 90.0);
    marginal.fit_level = FitLevel::Marginal;
    let all = vec![tight, perfect, marginal];
    let report = estimate_storage(all.clone(), &StorageRequest::default()).expect("report");
    assert_eq!(report.selected_count, 2);
    assert_eq!(report.keep_requested, 3);
    assert_eq!(report.eligible_count, 2);
    assert_eq!(report.warnings.len(), 1);
    assert_eq!(
        report.warnings[0],
        "Requested 3 models, but only 2 are eligible"
    );
    let report = estimate_storage(
        all,
        &StorageRequest {
            perfect: true,
            ..StorageRequest::default()
        },
    )
    .expect("report");
    assert_eq!(report.models[0].fit_level, FitLevel::Perfect);
    assert_eq!(report.selected_count, 1);
}

#[test]
fn empty_results_never_recommend_a_drive() {
    let report = estimate_storage(
        vec![],
        &StorageRequest {
            scratch: ScratchPolicy::Fixed(gb(200.0)),
            ..StorageRequest::default()
        },
    )
    .expect("empty report");
    assert!(report.models.is_empty());
    close(report.library_gb, 0.0);
    close(report.download_scratch_gb, 0.0);
    close(report.need_gb, 100.0);
    assert_eq!(report.minimum_ssd_gb, None);
    assert_eq!(report.suggested_ssd_gb, None);
    assert!(!report.warnings.is_empty());
    assert!(serde_json::to_value(report.suggested_ssd_gb).expect("JSON").is_null());
    assert_eq!(
        report.warnings,
        vec!["No runnable models match the filters; no SSD recommendation was made"]
    );
}

#[test]
fn tiers_respect_headroom_precision_and_exhaustion() {
    for (need, headroom, minimum, suggested) in [
        (500.0, 15, Some(512), Some(1000)),
        (512.0, 0, Some(512), Some(512)),
        (512.004, 0, Some(1000), Some(1000)),
        (16000.0, 0, Some(16000), Some(16000)),
        (16000.0, 15, Some(16000), None),
        (16001.0, 0, None, None),
    ] {
        let report = estimate_storage(
            vec![fit("fixture/a", 1.0, "mlx-8bit", 90.0)],
            &StorageRequest {
                keep: 1,
                os_reserve_gb: gb(need - 1.0),
                scratch: ScratchPolicy::Fixed(gb(0.0)),
                headroom_percent: headroom,
                ..StorageRequest::default()
            },
        )
        .expect("report");
        assert_eq!(report.minimum_ssd_gb, minimum);
        assert_eq!(report.suggested_ssd_gb, suggested);
        assert_eq!(report.warnings.is_empty(), suggested.is_some());
    }
    for tier in SSD_TIERS_GB {
        assert_eq!(next_tier(gb(f64::from(tier))), Some(tier));
        assert_ne!(next_tier(gb(f64::from(tier) + 0.0001)), Some(tier));
    }
}

#[test]
fn explicit_scratch_replaces_automatic_allowance() {
    let report = estimate_storage(
        vec![fit("fixture/a", 8.0, "Q4_K_M", 90.0)],
        &StorageRequest {
            keep: 1,
            os_reserve_gb: gb(0.0),
            scratch: ScratchPolicy::Fixed(gb(200.0)),
            headroom_percent: 0,
            ..StorageRequest::default()
        },
    )
    .expect("report");
    close(report.need_gb, 204.64);
    close(report.target_capacity_gb, number(report.need_gb));
}

#[test]
fn invalid_requests_and_nonfinite_results_are_errors() {
    for request in [
        StorageRequest {
            keep: 0,
            ..StorageRequest::default()
        },
        StorageRequest {
            headroom_percent: 100,
            ..StorageRequest::default()
        },
        StorageRequest {
            os_reserve_gb: gb(f64::NAN),
            ..StorageRequest::default()
        },
        StorageRequest {
            os_reserve_gb: gb(-1.0),
            ..StorageRequest::default()
        },
        StorageRequest {
            scratch: ScratchPolicy::Fixed(gb(f64::INFINITY)),
            ..StorageRequest::default()
        },
        StorageRequest {
            scratch: ScratchPolicy::Fixed(gb(-1.0)),
            ..StorageRequest::default()
        },
        StorageRequest {
            os_reserve_gb: gb(f64::MAX),
            headroom_percent: 99,
            ..StorageRequest::default()
        },
    ] {
        assert!(estimate_storage(vec![], &request).is_err());
    }
    let mut candidate = fit("fixture/bad", 8.0, "Q4_K_M", 90.0);
    for size in [0.0, f64::NAN, f64::INFINITY, -8.0 * 0.58] {
        candidate.disk_size_gb = gb(size);
        assert!(estimate_storage(vec![candidate.clone()], &StorageRequest::default()).is_err());
    }
    candidate.disk_size_gb = gb(8.0 * 0.58);
    candidate.score = gb(f64::NAN);
    assert!(estimate_storage(vec![candidate], &StorageRequest::default()).is_err());
}

#[test]
fn every_error_says_what_is_wrong() {
    let with = |request: StorageRequest| estimate_storage(vec![], &request).expect_err("error");
    assert_eq!(
        with(StorageRequest { keep: 0, ..StorageRequest::default() }),
        "--keep must be at least 1"
    );
    assert_eq!(
        with(StorageRequest { os_reserve_gb: gb(-1.0), ..StorageRequest::default() }),
        "OS reserve must be finite and non-negative"
    );
    assert_eq!(
        with(StorageRequest {
            scratch: ScratchPolicy::Fixed(gb(f64::NAN)),
            ..StorageRequest::default()
        }),
        "Download scratch must be finite and non-negative"
    );
    assert_eq!(
        with(StorageRequest { headroom_percent: 100, ..StorageRequest::default() }),
        "--headroom must be between 0 and 99 percent"
    );
    assert_eq!(
        with(StorageRequest {
            os_reserve_gb: gb(f64::MAX),
            headroom_percent: 99,
            ..StorageRequest::default()
        }),
        "Storage requirement exceeds the supported numeric range"
    );
    let mut bad = fit("m/x", 8.0, "Q4_K_M", 90.0);
    bad.disk_size_gb = gb(0.0);
    let of = |fits: Vec<ModelFit>| {
        estimate_storage(fits, &StorageRequest::default()).expect_err("error")
    };
    assert_eq!(of(vec![bad.clone()]), "Invalid weight estimate for 'm/x'");
    let mut unscored = fit("m/y", 8.0, "Q4_K_M", 90.0);
    unscored.score = gb(f64::INFINITY);
    assert_eq!(of(vec![unscored.clone()]), "Invalid ranking score for 'm/y'");
    assert_eq!(
        of(vec![
            fit("m/z", 8.0, "Q4_K_M", 90.0),
            fit("m/z", 8.0, "Q4_K_M", 91.0),
            bad.clone(),
        ]),
        "Conflicting estimates for duplicate model 'm/z'"
    );
    // The first row at fault decides, and rows that do not qualify are not looked at.
    assert_eq!(of(vec![unscored.clone(), bad.clone()]), "Invalid ranking score for 'm/y'");
    bad.fit_level = FitLevel::TooTight;
    assert_eq!(of(vec![bad, unscored]), "Invalid ranking score for 'm/y'");
}

#[test]
fn retaining_more_models_never_reduces_capacity_for_a_fixed_selection() {
    let fits = vec![
        fit("fixture/a", 8.0, "Q4_K_M", 90.0),
        fit("fixture/b", 12.0, "Q8_0", 80.0),
        fit("fixture/c", 20.0, "Q2_K", 70.0),
    ];
    for selection in [StorageSelection::Score, StorageSelection::Largest] {
        let mut previous = 0.0;
        for keep in 1..=5 {
            let report = estimate_storage(
                fits.clone(),
                &StorageRequest {
                    keep,
                    selection,
                    ..StorageRequest::default()
                },
            )
            .expect("report");
            assert!(number(report.need_gb) >= previous);
            previous = number(report.need_gb);
            assert!(
                f64::from(report.suggested_ssd_gb.expect("tier")) * 0.85
                    >= number(report.need_gb)
            );
        }
    }
}

#[test]
fn reserve_does_not_change_model_fit_or_count_installed_models_twice() {
    let candidate = fit("fixture/a", 8.0, "Q4_K_M", 90.0);
    let first = estimate_storage(
        vec![candidate.clone()],
        &StorageRequest {
            os_reserve_gb: gb(0.0),
            ..StorageRequest::default()
        },
    )
    .expect("report");
    let second = estimate_storage(
        vec![candidate],
        &StorageRequest {
            os_reserve_gb: gb(1000.0),
            ..StorageRequest::default()
        },
    )
    .expect("report");
    assert_eq!(first.models, second.models);
    close(first.library_gb, 4.64);
    let difference = number(second.need_gb) - number(first.need_gb);
    assert!((difference - 1000.0).abs() < 1e-9);
}

#[test]
fn totals_are_those_of_the_machine() {
    let mut fits = Vec::new();
    for i in 0..40 {
        let size = 0.1 + 1.7 * f64::from(i);
        let mut f = fit(&format!("m/{i}"), 1.0, "mlx-8bit", f64::from((i * 7) % 11));
        f.disk_size_gb = gb(size);
        fits.push(f);
    }
    for headroom in [0u8, 1, 15, 33, 99] {
        let report = estimate_storage(
            fits.clone(),
            &StorageRequest {
                keep: 25,
                headroom_percent: headroom,
                ..StorageRequest::default()
            },
        )
        .expect("report");
        let sizes: Vec<f64> = report.models.iter().map(|m| number(m.disk_size_gb)).collect();
        let library: f64 = sizes.iter().sum();
        let scratch = sizes.iter().copied().fold(0.0, f64::max);
        let need = 100.0 + library + scratch;
        let target = need / (1.0 - f64::from(headroom) / 100.0);
        assert_eq!(number(report.library_gb), library);
        assert_eq!(number(report.download_scratch_gb), scratch);
        assert_eq!(number(report.need_gb), need);
        assert_eq!(number(report.target_capacity_gb), target);
        assert_eq!(report.selected_count, 25);
        assert_eq!(report.eligible_count, 40);
        assert_eq!(report.headroom_percent, headroom);
        // Scores descend, and names ascend among equal scores.
        for pair in report.models.windows(2) {
            let (a, b) = (number(pair[0].score), number(pair[1].score));
            assert!(a > b || a == b && pair[0].name < pair[1].name);
        }
    }
}

#[test]
fn written_sizes_can_be_asked_for() {
    for text in ["0", "1TiB", ".5", "20 tb"] {
        let request = StorageRequest {
            os_reserve_gb: parse_storage_size(text).expect("size"),
            scratch: ScratchPolicy::Fixed(parse_storage_size(text).expect("size")),
            ..StorageRequest::default()
        };
        assert!(estimate_storage(vec![], &request).is_ok(), "{text}");
    }
}

#[test]
fn the_default_request_keeps_three_models() {
    let request = StorageRequest::default();
    assert_eq!(request.keep, 3);
    assert_eq!(request.selection, StorageSelection::default());
    assert_eq!(number(request.os_reserve_gb), 100.0);
    assert_eq!(request.scratch, ScratchPolicy::default());
    assert_eq!(request.headroom_percent, 15);
    assert!(!request.perfect);
}

#[test]
fn estimates_are_equal_as_numbers_are() {
    let a = StorageModelEstimate::from(&fit("m/a", 8.0, "Q4_K_M", 0.0));
    let mut b = a.clone();
    b.score = gb(-0.0);
    assert_eq!(a, b);
    b.effective_context_length = 1;
    assert_ne!(a, b);
    assert_eq!(a.best_quant, "Q4_K_M");
    assert_eq!(number(a.disk_size_gb), 8.0 * 0.58);
}

#[test]
fn duplicates_that_differ_in_the_sign_of_zero_agree_in_any_order() {
    let plus = fit("fixture/a", 10.0, "mlx-8bit", 0.0);
    let minus = fit("fixture/a", 10.0, "mlx-8bit", -0.0);
    let other = fit("fixture/b", 5.0, "mlx-8bit", 0.0);
    let x = estimate_storage(
        vec![plus.clone(), minus.clone(), other.clone()],
        &StorageRequest::default(),
    )
    .expect("report");
    let y = estimate_storage(
        vec![other.clone(), minus.clone(), other, plus.clone()],
        &StorageRequest::default(),
    )
    .expect("report");
    assert!(x.models == y.models);
    assert_eq!(x.models[0].score.to_bits(), 0);
    assert_eq!(y.models[0].score.to_bits(), (-0.0f64).to_bits());
    assert_eq!(x.eligible_count, 2);
    assert_eq!(y.eligible_count, 2);
    assert_eq!(x.library_gb.to_bits(), y.library_gb.to_bits());
    assert_eq!(x.need_gb.to_bits(), y.need_gb.to_bits());
    assert_eq!(x.target_capacity_gb.to_bits(), y.target_capacity_gb.to_bits());
    assert_eq!(x.minimum_ssd_gb, y.minimum_ssd_gb);
    assert_eq!(x.suggested_ssd_gb, y.suggested_ssd_gb);
    assert_eq!(x.warnings, y.warnings);

    let smaller = fit("fixture/a", 9.0, "mlx-8bit", 0.0);
    for fits in [vec![plus.clone(), smaller.clone()], vec![smaller, plus]] {
        assert!(estimate_storage(fits, &StorageRequest::default()).is_err());
    }
}

#[test]
fn no_tier_holds_what_is_not_a_number() {
    assert_eq!(next_tier(gb(f64::NAN)), None);
    assert_eq!(next_tier(gb(f64::INFINITY)), None);
    assert_eq!(next_tier(gb(-5.0)), Some(256));
    assert_eq!(next_tier(gb(256.00001)), Some(512));
}
