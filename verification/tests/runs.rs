use quantik_core::bench::adapters::{AnyAdapter, MinimaxAdapter, RandomAdapter, Seconds};
use quantik_core::bench::agreement::{
    aggregate_agreement, aggregate_cost, agreement_row, agreement_steps, contenders_of, row_key,
    run_agreement, run_steps, AgreementStep, RunKey,
};
use quantik_core::bench::bundle::make_bundle;
use quantik_core::bench::canonical::canonical_json;
use quantik_core::bench::checkpoint::{
    build_manifest, bundle_from_checkpoint, checkpoint_paths, head_to_head_aggregates,
    manifest_path, normalize_run_config, parse_jsonl, update_manifest_counts,
    validate_resume_manifest,
};
use quantik_core::bench::head_to_head::{
    aggregate_head_to_head, build_h2h_tasks, h2h_key, hand_on_results, play_h2h_task,
    run_head_to_head,
};
use quantik_core::bench::json::{parse_json, set_member, Json};
use quantik_core::bench::listener::Listener;
use quantik_core::bench::plan::{
    check_resume, check_workers, engine_pairs, expected_h2h_records, expected_observations,
    h2h_positions, line_up, phase_summary, run_config, seed_list, RunProgress, RunSettings,
};
use quantik_core::bench::report::render_markdown;
use quantik_core::bench::roster::RunArgs;
use quantik_core::bench::stability::aggregate_stability;
use quantik_core::search_telemetry::Ratio;

type Priority = fn(u32, u32, u32) -> i64;

fn even(_wins: u32, _visits: u32, _parent: u32) -> i64 {
    0
}

fn no_cpu() -> u64 {
    0
}

fn write(q: Ratio) -> String {
    format!("{:e}", q.num as f64 / q.den as f64)
}

fn unheard(_row: &Json) {}

fn taken(_record: &Json) -> Result<(), String> {
    Ok(())
}

fn json(text: &str) -> Json {
    parse_json(text).unwrap()
}

fn rows(texts: &[&str]) -> Vec<Json> {
    texts.iter().map(|t| json(t)).collect()
}

fn fixture_rows() -> Vec<Json> {
    rows(&[
        r#"{"engine": "e1", "config_label": "c", "phase": "endgame", "position_id": "p1",
            "seed": 0, "move": "0:0:0", "hit": true, "wall_time_s": 0.1, "nodes": 100,
            "peak_memory_bytes": null}"#,
        r#"{"engine": "e1", "config_label": "c", "phase": "endgame", "position_id": "p1",
            "seed": 1, "move": "0:0:1", "hit": false, "wall_time_s": 0.3, "nodes": 300,
            "peak_memory_bytes": null}"#,
        r#"{"engine": "e1", "config_label": "c", "phase": "opening", "position_id": "p2",
            "seed": 0, "move": "0:0:0", "hit": null, "wall_time_s": 0.2, "nodes": null,
            "peak_memory_bytes": 12}"#,
    ])
}

#[test]
fn aggregate_agreement_excludes_null_hits() {
    let aggregates = aggregate_agreement(&fixture_rows());
    assert_eq!(aggregates.len(), 1);
    let row = &aggregates[0];
    assert_eq!(row.key, vec!["e1", "c", "endgame"]);
    assert_eq!(row.n, 2);
    assert_eq!(row.hits, 1);
}

#[test]
fn aggregate_cost_medians() {
    let aggregates = aggregate_cost(&fixture_rows());
    assert_eq!(aggregates.len(), 1);
    let row = &aggregates[0];
    assert_eq!(row.n, 3);
    assert_eq!(row.wall_times, vec!["1e-1", "3e-1", "2e-1"]);
    assert_eq!(row.nodes, vec![100, 300]);
    assert_eq!(row.peak_memory_bytes, Some(12));
}

fn one_position() -> Json {
    json(
        r#"{"positions": [{"id": "p0", "qfen": "..../..../..../....", "phase": "opening",
            "reference": null}]}"#,
    )
}

fn random_only() -> Vec<AnyAdapter<Priority>> {
    vec![AnyAdapter::Random(RandomAdapter)]
}

#[test]
fn run_agreement_produces_rows_with_hit_semantics() {
    let payload = one_position();
    let none: Vec<RunKey> = Vec::new();
    let steps =
        agreement_steps(&contenders_of(&random_only()), &payload, &vec![0, 1, 2], &none).unwrap();
    assert_eq!(steps[0], AgreementStep::Check { position: 0 });
    let streamed = std::cell::Cell::new(0);
    let on_row = |_: &Json| streamed.set(streamed.get() + 1);
    let seeds = vec![0, 1, 2];
    let mut on_row = Listener::new(on_row);
    let done =
        run_agreement(&random_only(), &payload, &seeds, &none, &no_cpu, &write, &mut on_row)
            .unwrap();
    // Random choices depend on the seed: three seeds, one position.
    assert_eq!(done.len(), 3);
    assert_eq!(streamed.get(), 3);
    for row in &done {
        assert!(row.get("hit").unwrap().is_null(), "no reference, no hit");
        assert_eq!(row.get("phase").unwrap().as_text(), Some("opening"));
    }
}

#[test]
fn run_agreement_skip_set_prevents_reruns() {
    let payload = one_position();
    let skip = vec![RunKey {
        engine: "random".to_string(),
        config_label: "random".to_string(),
        position_id: "p0".to_string(),
        seed: Some(0),
    }];
    let mut on_row = Listener::new(unheard);
    let done =
        run_agreement(&random_only(), &payload, &vec![0, 1], &skip, &no_cpu, &write, &mut on_row)
            .unwrap();
    assert_eq!(done.len(), 1);
    assert_eq!(done[0].get("seed").unwrap().as_unsigned(), Some(1));
}

#[test]
fn empty_seeds_rejected() {
    let payload = json(r#"{"positions": []}"#);
    let nobody: Vec<AnyAdapter<Priority>> = Vec::new();
    let none: Vec<RunKey> = Vec::new();
    let mut on_row = Listener::new(unheard);
    assert_eq!(
        run_agreement(&nobody, &payload, &vec![], &none, &no_cpu, &write, &mut on_row)
            .unwrap_err(),
        "seeds must be a non-empty ordered list"
    );
    assert_eq!(
        run_agreement(&nobody, &json("{}"), &vec![0], &none, &no_cpu, &write, &mut on_row)
            .unwrap_err(),
        "payload has no positions"
    );
    let broken = json(r#"{"positions": [{"id": "p0"}]}"#);
    assert_eq!(
        run_agreement(&nobody, &broken, &vec![0], &none, &no_cpu, &write, &mut on_row)
            .unwrap_err(),
        "position missing qfen"
    );
}

#[test]
fn optimal_moves_are_hits() {
    let position = json(
        r#"{"id": "p0", "phase": "endgame", "reference": {"optimal_moves": ["0:1:2"]}}"#,
    );
    let observation = json("{}");
    let hit = agreement_row(&observation, &position, "0:1:2");
    assert!(matches!(hit.get("hit"), Some(Json::Bool(true))));
    let miss = agreement_row(&observation, &position, "0:1:3");
    assert!(matches!(miss.get("hit"), Some(Json::Bool(false))));
}

#[test]
fn run_and_aggregate_head_to_head() {
    let positions =
        rows(&[r#"{"id": "p0", "qfen": "..../..../..../....", "phase": "opening"}"#]);
    let minimax = MinimaxAdapter {
        max_depth: 1,
        time_limit: None,
    };
    let seeds = vec![0, 1];
    let mut on_record = Listener::new(taken);
    let records =
        run_head_to_head(&RandomAdapter, &minimax, &positions, &seeds, &vec![], 1, &mut on_record)
            .unwrap();
    // One position, two seeds, either engine as the mover.
    assert_eq!(records.len(), 4);
    for record in &records {
        let winner = record.get("winner").unwrap().as_text().unwrap();
        assert!(winner == "random" || winner == "minimax");
        assert!(record.get("plies").unwrap().as_unsigned().unwrap() >= 1);
    }
    let aggregate = aggregate_head_to_head(&records, "random", "minimax");
    assert_eq!(aggregate.games, 4);
    assert_eq!(aggregate.paired_positions, 2);
    assert_eq!(aggregate.a_wins + aggregate.b_wins, 4, "every game has a winner");
    assert_eq!(aggregate.by_phase.len(), 1);
    assert_eq!(aggregate.by_phase[0].key, vec!["opening"]);
    assert_eq!(aggregate.by_phase[0].games, 4);
}

#[test]
fn games_are_listed_in_order_and_left_out_when_played() {
    let positions = rows(&[r#"{"id": "p0"}"#, r#"{"id": "p1"}"#]);
    let played = h2h_key(&json(
        r#"{"position_id": "p0", "mover": "b", "responder": "a", "seed": 5}"#,
    ));
    let tasks = build_h2h_tasks("a", "b", &positions, &vec![5], &vec![played]);
    let listed: Vec<(usize, u64, bool)> =
        tasks.iter().map(|t| (t.position, t.seed, t.a_moves)).collect();
    assert_eq!(listed, vec![(0, 5, true), (1, 5, true), (1, 5, false)]);
}

#[test]
fn workers_zero_rejected() {
    assert_eq!(check_workers(0).unwrap_err(), "workers must be at least 1");
    assert!(check_workers(1).is_ok());
}

#[test]
fn stability_from_fixture_rows() {
    // Position p1 got m1, m1, m2; position p2 got m1 three times. The hits per seed
    // are two, one and none of two.
    let list = rows(&[
        r#"{"engine": "e", "config_label": "c", "position_id": "p1", "seed": 0, "move": "m1", "hit": true}"#,
        r#"{"engine": "e", "config_label": "c", "position_id": "p1", "seed": 1, "move": "m1", "hit": true}"#,
        r#"{"engine": "e", "config_label": "c", "position_id": "p1", "seed": 2, "move": "m2", "hit": false}"#,
        r#"{"engine": "e", "config_label": "c", "position_id": "p2", "seed": 0, "move": "m1", "hit": true}"#,
        r#"{"engine": "e", "config_label": "c", "position_id": "p2", "seed": 1, "move": "m1", "hit": false}"#,
        r#"{"engine": "e", "config_label": "c", "position_id": "p2", "seed": 2, "move": "m1", "hit": false}"#,
    ]);
    let aggregates = aggregate_stability(&list);
    assert_eq!(aggregates.len(), 1);
    let row = &aggregates[0];
    assert_eq!(row.seeds, vec![Some(0), Some(1), Some(2)]);
    assert_eq!(row.positions, vec!["p1", "p2"]);
    assert_eq!(row.consistency, vec![(2, 3), (3, 3)]);
    let consistency = row
        .consistency
        .iter()
        .map(|(top, all)| *top as f64 / *all as f64)
        .sum::<f64>()
        / row.positions.len() as f64;
    assert!((consistency - (2.0 / 3.0 + 1.0) / 2.0).abs() < 1e-12);
    assert_eq!(row.agreement, vec![(2, 2), (1, 2), (0, 2)]);
    let mean = row
        .agreement
        .iter()
        .map(|(hits, all)| *hits as f64 / *all as f64)
        .sum::<f64>()
        / 3.0;
    assert!((mean - 0.5).abs() < 1e-12, "mean {mean}");
}

#[test]
fn observation_and_h2h_keys_are_stable() {
    let observation = row_key(&json(
        r#"{"position_id": "p0008", "engine": "mcts",
            "config_label": "mcts(it=5000,d=16,c=1.414)", "seed": 7}"#,
    ));
    assert_eq!(observation.position_id, "p0008");
    assert_eq!(observation.engine, "mcts");
    assert_eq!(observation.config_label, "mcts(it=5000,d=16,c=1.414)");
    assert_eq!(observation.seed, Some(7));
    let game = h2h_key(&json(
        r#"{"position_id": "p0008", "mover": "beam", "responder": "mcts", "seed": 11}"#,
    ));
    assert_eq!(game.position_id, "p0008");
    assert_eq!(game.mover, "beam");
    assert_eq!(game.responder, "mcts");
    assert_eq!(game.seed, 11);
}

#[test]
fn jsonl_append_and_load_roundtrip() {
    let first = canonical_json(&json(r#"{"b": 2, "a": 1}"#));
    let second = canonical_json(&json(r#"{"a": 3, "b": 4}"#));
    assert_eq!(first, r#"{"a":1,"b":2}"#);
    assert_eq!(second, r#"{"a":3,"b":4}"#);
    let list = parse_jsonl("rows.jsonl", &format!("{first}\n{second}\n")).unwrap();
    assert_eq!(list.len(), 2);
    assert_eq!(canonical_json(&list[0]), first);
    assert_eq!(canonical_json(&list[1]), second);
}

#[test]
fn load_jsonl_bad_json_includes_file_and_line() {
    let err = parse_jsonl("rows.jsonl", "{\"ok\":1}\n{\"bad\":\n").unwrap_err();
    assert!(err.contains("rows.jsonl:2"), "{err}");
}

#[test]
fn load_jsonl_skips_blank_lines() {
    let list = parse_jsonl("rows.jsonl", "{\"a\":1}\n\n   \n{\"a\":2}\n").unwrap();
    assert_eq!(list.len(), 2);
    assert_eq!(list[1].get("a").unwrap().as_unsigned(), Some(2));
}

fn small_dataset() -> Json {
    json(
        r#"{"schema_version": 1, "generator": "benchmarks.dataset.generate/v1", "seed": 20260711,
            "checksum": "abc123",
            "positions": [{"id": "p0000", "qfen": ".ba./..CC/DcbD/cA.A", "phase": "late_mid",
                "pieces": 8, "side_to_move": 1, "legal_moves": 10, "reference": null}]}"#,
    )
}

#[test]
fn running_checkpoint_bundle_and_report_show_partial_status() {
    let config = json(r#"{"family": "native", "engine_seeds": [0]}"#);
    let manifest = build_manifest(
        &config,
        &small_dataset(),
        "running",
        0,
        0,
        "2026-07-14T00:00:00+0200",
        &json("{}"),
    );
    let bundle = bundle_from_checkpoint(
        &manifest,
        Vec::new(),
        Vec::new(),
        Json::Array(Vec::new()),
        json("{}"),
        "2026-07-14T00:00:00+0200",
        json("{}"),
    )
    .unwrap();
    let checkpoint = bundle.get("checkpoint").unwrap();
    assert_eq!(checkpoint.get("status").unwrap().as_text(), Some("running"));
    assert_eq!(
        canonical_json(checkpoint.get("counts").unwrap()),
        r#"{"h2h_records":0,"observations":0}"#
    );
    assert_eq!(canonical_json(bundle.get("observations").unwrap()), "[]");
    assert!(render_markdown(&bundle).contains("checkpoint status: running"));

    let done = update_manifest_counts(&manifest, 4, 2, Some("complete"), "2026-07-14T00:00:01+0200");
    assert_eq!(done.get("status").unwrap().as_text(), Some("complete"));
    assert_eq!(
        canonical_json(done.get("counts").unwrap()),
        r#"{"h2h_records":2,"observations":4}"#
    );
}

#[test]
fn bundle_from_checkpoint_requires_dataset_metadata() {
    let err = bundle_from_checkpoint(
        &json(r#"{"status": "running"}"#),
        Vec::new(),
        Vec::new(),
        Json::Array(Vec::new()),
        json("{}"),
        "now",
        json("{}"),
    )
    .unwrap_err();
    assert!(err.contains("dataset metadata"), "{err}");
}

#[test]
fn resume_validation_checksum_mismatch() {
    let manifest = json(r#"{"dataset": {"checksum": "a"}, "config": {}}"#);
    let err = validate_resume_manifest(&manifest, Some("b"), &json("{}"), false).unwrap_err();
    assert!(err.contains("checksum mismatch"), "{err}");
}

#[test]
fn resume_validation_config_diff_message_names_the_key() {
    let manifest =
        json(r#"{"dataset": {"checksum": "a"}, "config": {"family": "fixed", "seeds": 10}}"#);
    let config = json(r#"{"family": "fixed", "seeds": 30}"#);
    let err = validate_resume_manifest(&manifest, Some("a"), &config, false).unwrap_err();
    assert!(err.contains("seeds: expected 30, found 10"), "{err}");
}

#[test]
fn resume_validation_excludes_volatile_fields() {
    let manifest = json(
        r#"{"dataset": {"checksum": "a"}, "config": {"family": "fixed",
            "checkpoint_dir": "old/dir", "output": "old.json", "resume": false, "workers": 1}}"#,
    );
    let config = json(
        r#"{"family": "fixed", "checkpoint_dir": "new/dir", "output": "new.json",
            "resume": true, "workers": 4}"#,
    );
    validate_resume_manifest(&manifest, Some("a"), &config, false).unwrap();
    assert_eq!(
        canonical_json(&normalize_run_config(&config)),
        r#"{"family":"fixed"}"#
    );
}

#[test]
fn resume_validation_skip_h2h_allowed_only_when_ignored() {
    let manifest = json(
        r#"{"dataset": {"checksum": "a"}, "config": {"family": "fixed", "skip_h2h": false}}"#,
    );
    let strict = json(r#"{"family": "fixed", "skip_h2h": true}"#);
    assert!(validate_resume_manifest(&manifest, Some("a"), &strict, false).is_err());
    validate_resume_manifest(&manifest, Some("a"), &strict, true).unwrap();
}

#[test]
fn resuming_needs_a_manifest_and_the_games() {
    let manifest = json(
        r#"{"dataset": {"checksum": "a"}, "config": {"family": "fixed", "skip_h2h": false}}"#,
    );
    let config = json(r#"{"family": "fixed", "skip_h2h": true}"#);
    assert_eq!(
        check_resume("dir/m.json", None, Some("a"), &config, false, 0, 0).unwrap_err(),
        "RESUME FAILED - checkpoint manifest not found: dir/m.json"
    );
    assert_eq!(
        check_resume("m", Some(&manifest), Some("a"), &config, true, 8, 3).unwrap_err(),
        "RESUME FAILED - checkpoint h2h records incomplete: expected 8, found 3"
    );
    assert!(check_resume("m", Some(&manifest), Some("a"), &config, true, 8, 8).is_ok());
    let refused = check_resume("m", Some(&manifest), Some("b"), &config, true, 8, 8).unwrap_err();
    assert!(refused.starts_with("RESUME FAILED - checkpoint dataset checksum mismatch"));
}

#[test]
fn head_to_head_aggregates_group_unordered_pairs_first_seen_order() {
    let records = rows(&[
        r#"{"position_id": "p0", "phase": "opening", "mover": "beam", "responder": "mcts",
            "winner": "beam", "plies": 3, "seed": 0}"#,
        r#"{"position_id": "p0", "phase": "opening", "mover": "minimax", "responder": "random",
            "winner": "minimax", "plies": 1, "seed": 0}"#,
        r#"{"position_id": "p0", "phase": "opening", "mover": "mcts", "responder": "beam",
            "winner": "mcts", "plies": 5, "seed": 0}"#,
    ]);
    let aggregates = head_to_head_aggregates(&records);
    assert_eq!(aggregates.len(), 2);
    assert_eq!(aggregates[0].engine_a, "beam");
    assert_eq!(aggregates[0].engine_b, "mcts");
    assert_eq!(aggregates[0].games, 2);
    assert_eq!(aggregates[0].a_wins, 1);
    assert_eq!(aggregates[0].b_wins, 1);
    assert_eq!(aggregates[1].engine_a, "minimax");
    assert_eq!(aggregates[1].games, 1);
}

#[test]
fn bundle_shape_and_save() {
    let dataset = json(
        r#"{"checksum": "abc", "generator": "g/v1", "seed": 1, "schema_version": 1,
            "positions": [{"phase": "opening"}, {"phase": "opening"}, {"phase": "endgame"}]}"#,
    );
    let bundle = make_bundle(
        &json(r#"{"family": "fixed"}"#),
        &dataset,
        rows(&[r#"{"engine": "random"}"#]),
        json(r#"{"records": [], "aggregates": []}"#),
        json(r#"{"agreement": [], "cost": [], "stability": []}"#),
        "2026-07-12T01:23:45+0200",
        json(r#"{"quantik_core_version": "0.1.0"}"#),
    );
    assert_eq!(bundle.get("schema_version").unwrap().as_unsigned(), Some(1));
    let block = bundle.get("dataset").unwrap();
    assert_eq!(block.get("positions").unwrap().as_unsigned(), Some(3));
    let phases = block.get("phases").unwrap();
    assert_eq!(phases.get("opening").unwrap().as_unsigned(), Some(2));
    let config = bundle.get("config").unwrap();
    assert_eq!(config.get("family").unwrap().as_text(), Some("fixed"));
    assert!(matches!(bundle.get("observations"), Some(Json::Array(v)) if v.len() == 1));
    let environment = bundle.get("environment").unwrap();
    assert!(environment.get("quantik_core_version").unwrap().as_text().is_some());
    assert_eq!(
        bundle.get("started_at").unwrap().as_text(),
        Some("2026-07-12T01:23:45+0200")
    );
}

fn minimal_bundle() -> Json {
    json(
        r#"{"started_at": "2026-07-12T01:00:00+0200",
            "environment": {"git_sha": "abcdef1234567890", "quantik_core_version": "0.1.0",
                "rust_version": "stable", "platform": "macos-aarch64", "cpu_count": 8},
            "config": {"family": "fixed", "engine_seeds": [0, 1]},
            "dataset": {"checksum": "deadbeef", "positions": 2, "phases": {"opening": 2},
                "seed": 42},
            "observations": [],
            "head_to_head": {"records": [], "aggregates": [{
                "engine_a": "minimax", "engine_b": "random", "paired_positions": 2, "games": 4,
                "a_wins": 3, "b_wins": 1, "draws": 0, "a_win_rate": 0.75,
                "a_win_rate_ci95": [0.3, 0.95], "a_wins_as_mover": 2, "b_wins_as_mover": 1,
                "by_phase": {"opening": {"games": 4, "a_wins": 3, "b_wins": 1}}}]},
            "aggregates": {
                "agreement": [{"engine": "minimax", "config_label": "minimax(d=16,t=1.0)",
                    "phase": "endgame", "n": 10, "hits": 9, "agreement": 0.9,
                    "ci95_low": 0.596, "ci95_high": 0.982}],
                "cost": [{"engine": "minimax", "config_label": "minimax(d=16,t=1.0)", "n": 10,
                    "median_time_s": 0.01, "p95_time_s": 0.09, "median_nodes": 1234.0,
                    "peak_memory_bytes": null}],
                "stability": [{"engine": "mcts", "config_label": "mcts(it=100,d=16,c=1.414)",
                    "seeds": 2, "move_consistency": 0.8, "agreement_mean": 0.7,
                    "agreement_std": 0.1}]}}"#,
    )
}

#[test]
fn report_contains_all_sections_and_rows() {
    let markdown = render_markdown(&minimal_bundle());
    for section in [
        "# Cross-engine benchmark - `abcdef123456`",
        "## Exact move agreement",
        "## Computational cost",
        "## Head-to-head (paired, side-balanced)",
        "### Head-to-head by phase",
        "## Stability across seeds",
        "## Interpretation guardrails",
    ] {
        assert!(markdown.contains(section), "missing {section}");
    }
    assert!(markdown.contains(
        "| minimax | `minimax(d=16,t=1.0)` | endgame | 10 | 9 | 0.900 | [0.596, 0.982] |"
    ));
    assert!(markdown.contains("0.750 [0.300, 0.950]"));
    assert!(markdown.contains("benchmark family: **fixed**"));
    assert!(markdown.contains("| 1234 | - |"));
}

#[test]
fn checkpoint_block_renders_after_started_line_when_present() {
    let bundle = set_member(
        &minimal_bundle(),
        "checkpoint",
        json(r#"{"status": "running", "counts": {"observations": 5, "h2h_records": 2}}"#),
    );
    let markdown = render_markdown(&bundle);
    assert!(markdown.contains("- checkpoint status: running"));
    assert!(markdown.contains("- checkpoint counts: observations 5, h2h_records 2"));
    let no_checkpoint = render_markdown(&minimal_bundle());
    assert!(!no_checkpoint.contains("checkpoint status"));
}

#[test]
fn checkpoints_stand_in_a_directory() {
    let paths = checkpoint_paths("out/run");
    assert_eq!(paths.observations, "out/run/observations.jsonl");
    assert_eq!(paths.h2h, "out/run/h2h.jsonl");
    assert_eq!(manifest_path("out/run", true), paths.manifest);
    assert_eq!(manifest_path("out/other.json", false), "out/other.json");
    assert_eq!(manifest_path("out/run", false), paths.manifest);
}

#[test]
fn positions_for_games_are_dealt_from_every_phase() {
    let payload = json(
        r#"{"positions": [{"id": "o1", "phase": "opening"}, {"id": "o2", "phase": "opening"},
            {"id": "o3", "phase": "opening"}, {"id": "e1", "phase": "endgame"},
            {"id": "m1", "phase": "late_mid"}]}"#,
    );
    let ids = |count: usize| -> Vec<String> {
        h2h_positions(&payload, count)
            .iter()
            .map(|p| p.get("id").unwrap().as_text().unwrap().to_string())
            .collect()
    };
    assert_eq!(ids(4), vec!["e1", "m1", "o1", "o2"]);
    assert_eq!(ids(9), vec!["e1", "m1", "o1", "o2", "o3"]);
    assert!(ids(0).is_empty());
    let summary = phase_summary(&payload);
    assert_eq!(summary[0], ("opening", 3, 0));
    assert_eq!(summary[3], ("endgame", 1, 0));
}

#[test]
fn runs_know_how_much_work_they_are() {
    let adapters: Vec<AnyAdapter<Priority>> = vec![
        AnyAdapter::Minimax(MinimaxAdapter {
            max_depth: 1,
            time_limit: None,
        }),
        AnyAdapter::Random(RandomAdapter),
    ];
    // One row of minimax and ten of the random mover for each position.
    assert_eq!(expected_observations(&adapters, 36, 10), 396);
    assert_eq!(expected_h2h_records(4, 8, 1), 96);
    assert_eq!(expected_h2h_records(1, 8, 1), 0);
    assert_eq!(engine_pairs(3), vec![(0, 1), (0, 2), (1, 2)]);
    assert_eq!(seed_list(7, 3), vec![7, 8, 9]);
    let mut progress = RunProgress {
        observations: 1,
        games: 0,
        every: 2,
    };
    assert!(progress.add_observation());
    assert!(!progress.add_observation());
    assert!(!progress.add_game());
    assert_eq!(progress.observations, 3);
}

fn args(engines: &[&str]) -> RunArgs {
    RunArgs {
        family: "fixed".to_string(),
        time_limit: Seconds {
            text: "1e0".to_string(),
            nanos: 1_000_000_000,
        },
        minimax_depth: 6,
        minimax_time: Seconds {
            text: "2e-1".to_string(),
            nanos: 200_000_000,
        },
        mcts_iterations: 1500,
        mcts_depth: 16,
        mcts_exploration: "1.414e0".to_string(),
        beam_width: 64,
        beam_depth: 16,
        engines: engines.iter().map(|e| e.to_string()).collect(),
    }
}

#[test]
fn games_need_two_engines() {
    match line_up(&args(&["mcts"]), false, even as Priority) {
        Ok(_) => panic!("one engine cannot play"),
        Err(e) => assert_eq!(e, "head-to-head requires at least two selected engines"),
    }
    assert_eq!(line_up(&args(&["mcts"]), true, even as Priority).unwrap().len(), 1);
}

#[test]
fn run_settings_are_written_down() {
    let settings = RunSettings {
        dataset: "positions.json".to_string(),
        seeds: 2,
        seed_base: 5,
        h2h_positions: 8,
        h2h_seeds: 1,
        skip_h2h: true,
        output: "out.json".to_string(),
        checkpoint_dir: None,
        resume: false,
        checkpoint_every: 1,
        workers: 4,
    };
    let config = run_config(
        &settings,
        &args(&[]),
        &vec!["mcts".to_string(), "beam".to_string()],
        &vec![5, 6],
    );
    assert_eq!(
        canonical_json(&config),
        concat_texts(&[
            r#"{"beam_depth":16,"beam_width":64,"checkpoint_dir":null,"checkpoint_every":1,"#,
            r#""dataset":"positions.json","engine_seeds":[5,6],"engines":["mcts","beam"],"#,
            r#""family":"fixed","h2h_positions":8,"h2h_seeds":1,"mcts_depth":16,"#,
            r#""mcts_exploration":1.414,"mcts_iterations":1500,"minimax_depth":6,"#,
            r#""minimax_time":0.2,"output":"out.json","resume":false,"seed_base":5,"seeds":2,"#,
            r#""skip_h2h":true,"time_limit":1.0,"workers":4}"#,
        ])
    );
}

fn concat_texts(parts: &[&str]) -> String {
    parts.join("")
}

fn shallow() -> MinimaxAdapter {
    MinimaxAdapter {
        max_depth: 1,
        time_limit: None,
    }
}

#[test]
fn records_are_handed_on_in_order_whatever_the_workers() {
    let positions = rows(&[
        r#"{"id": "p0", "qfen": "..../..../..../....", "phase": "opening"}"#,
        r#"{"id": "p1", "qfen": "A.../..../..../....", "phase": "opening"}"#,
    ]);
    let (a, b) = (shallow(), shallow());
    let seeds = vec![3];
    let heard = std::cell::RefCell::new(Vec::new());
    let hear = |record: &Json| {
        heard.borrow_mut().push(canonical_json(record));
        Ok(())
    };
    let mut hear = Listener::new(hear);
    let alone = run_head_to_head(&a, &b, &positions, &seeds, &vec![], 1, &mut hear).unwrap();
    let mut take = Listener::new(taken);
    let many = run_head_to_head(&a, &b, &positions, &seeds, &vec![], 4, &mut take).unwrap();
    let results = build_h2h_tasks("minimax", "minimax", &positions, &seeds, &vec![])
        .iter()
        .map(|task| play_h2h_task(&a, &b, &positions[task.position], task.seed))
        .collect();
    let shared = hand_on_results(results, &mut Listener::new(taken)).unwrap();
    let texts = |records: &Vec<Json>| -> Vec<String> {
        records.iter().map(canonical_json).collect()
    };
    assert_eq!(texts(&alone).len(), 4);
    assert_eq!(texts(&alone), texts(&many));
    assert_eq!(texts(&alone), texts(&shared));
    assert_eq!(texts(&alone), *heard.borrow());
}

#[test]
fn runs_end_with_the_first_failure() {
    let positions =
        rows(&[r#"{"id": "p0", "qfen": "..../..../..../....", "phase": "opening"}"#]);
    let (a, b) = (shallow(), shallow());
    let run = |positions: &Vec<Json>, workers: usize, full: bool| {
        let count = std::cell::Cell::new(0);
        let hear = |_: &Json| {
            count.set(count.get() + 1);
            if full && count.get() == 2 {
                Err("disk full".to_string())
            } else {
                Ok(())
            }
        };
        let mut hear = Listener::new(hear);
        let r = run_head_to_head(&a, &b, positions, &vec![0, 1], &vec![], workers, &mut hear);
        (r.map(|records| records.len()), count.get())
    };
    assert_eq!(run(&positions, 0, false), (Err("workers must be at least 1".to_string()), 0));
    assert_eq!(run(&positions, 1, true), (Err("disk full".to_string()), 2));
    assert_eq!(run(&positions, 1, false), (Ok(4), 4));
    let broken = rows(&[r#"{"id": "p0", "qfen": "x", "phase": "opening"}"#]);
    assert!(run(&broken, 1, false).0.is_err());
    let results = vec![Ok(json("1")), Err("no".to_string()), Ok(json("2"))];
    assert_eq!(hand_on_results(results, &mut Listener::new(taken)).unwrap_err(), "no");
}

#[test]
fn steps_stop_when_a_row_is_refused() {
    let payload = one_position();
    let positions = match payload.get("positions") {
        Some(Json::Array(items)) => items,
        other => panic!("{other:?}"),
    };
    let none: Vec<RunKey> = Vec::new();
    let adapters = random_only();
    let steps =
        agreement_steps(&contenders_of(&adapters), &payload, &vec![0, 1, 2], &none).unwrap();
    let run = |full: bool| {
        let count = std::cell::Cell::new(0);
        let hear = |_: &Json| {
            count.set(count.get() + 1);
            if full && count.get() == 2 {
                Err("disk full".to_string())
            } else {
                Ok(())
            }
        };
        let mut hear = Listener::new(hear);
        let r = run_steps(&adapters, positions, &steps, &no_cpu, &write, &mut hear);
        (r.map(|rows| rows.len()), count.get())
    };
    assert_eq!(run(false), (Ok(3), 3));
    assert_eq!(run(true), (Err("disk full".to_string()), 2));
}
