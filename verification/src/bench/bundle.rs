//! Bundles of benchmark results that describe themselves.
use crate::bench::contracts::{CONTRACT_VERSION, GAME_RESULT_SCHEMA, OBSERVATION_SCHEMA};
use crate::bench::fields::{at, copy_of, text_in_or, text_or};
use crate::bench::json::{
    field, items_view, lemma_without_with, member, members_view, set_member, with_member, Json,
    JsonView,
};
use vstd::prelude::*;
use vstd::string::*;

verus! {

pub const SCHEMA_VERSION: u64 = 1;

/// The number of a member; zero if it is no unsigned number.
pub open spec fn count_of(o: Seq<(Seq<char>, JsonView)>, name: Seq<char>) -> u64 {
    match member(o, name) {
        Some(JsonView::Unsigned(n)) => n,
        _ => 0,
    }
}

/// How many of the first `n` positions there are of each phase.
pub open spec fn phase_counts(positions: Seq<JsonView>, n: int) -> Seq<(Seq<char>, JsonView)>
    decreases n,
{
    if n <= 0 {
        Seq::empty()
    } else {
        let before = phase_counts(positions, n - 1);
        let phase = text_or(positions[n - 1], "phase"@, ""@);
        with_member(before, phase, JsonView::Unsigned((count_of(before, phase) + 1) as u64))
    }
}

/// The count of a phase is the number of its positions.
pub proof fn law_phase_counts(positions: Seq<JsonView>, n: int, phase: Seq<char>)
    requires
        0 <= n <= positions.len(),
        n <= u64::MAX,
    ensures
        count_of(phase_counts(positions, n), phase) == positions_in(positions, n, phase),
        0 <= positions_in(positions, n, phase) <= n,
    decreases n,
{
    if n > 0 {
        law_phase_counts(positions, n - 1, phase);
        let before = phase_counts(positions, n - 1);
        let last = text_or(positions[n - 1], "phase"@, ""@);
        lemma_without_with(
            before,
            last,
            JsonView::Unsigned((count_of(before, last) + 1) as u64),
        );
    }
}

/// How many of the first `n` positions belong to a phase.
pub open spec fn positions_in(positions: Seq<JsonView>, n: int, phase: Seq<char>) -> int
    decreases n,
{
    if n <= 0 {
        0
    } else {
        positions_in(positions, n - 1, phase) + if text_or(positions[n - 1], "phase"@, ""@)
            == phase {
            1int
        } else {
            0
        }
    }
}

/// The positions of a dataset; none if it has no list.
pub open spec fn positions_of(dataset: JsonView) -> Seq<JsonView> {
    match at(dataset, "positions"@) {
        JsonView::Array(items) => items,
        _ => Seq::empty(),
    }
}

fn phase_object(positions: &Vec<Json>) -> (j: Json)
    ensures
        j.view() == JsonView::Object(
            phase_counts(items_view(positions@), positions@.len() as int),
        ),
{
    let ghost views = items_view(positions@);
    let none: Vec<(String, Json)> = Vec::new();
    assert(members_view(none@) =~= Seq::empty());
    let mut j = Json::Object(none);
    let mut i: usize = 0;
    while i < positions.len()
        invariant
            i <= positions@.len(),
            views == items_view(positions@),
            j.view() == JsonView::Object(phase_counts(views, i as int)),
        decreases positions@.len() - i,
    {
        assert(views[i as int] == positions@[i as int].view());
        let phase = text_in_or(&positions[i], "phase", "");
        let count: u64 = match j.get(phase) {
            Some(v) => match v {
                Json::Unsigned(n) => *n,
                _ => 0,
            },
            None => 0,
        };
        proof {
            law_phase_counts(views, i as int, phase@);
        }
        j = set_member(&j, phase, Json::Unsigned(count + 1));
        i = i + 1;
    }
    j
}

/// What a bundle says of its dataset.
pub open spec fn dataset_block_view(dataset: JsonView) -> JsonView {
    JsonView::Object(
        seq![
            ("checksum"@, at(dataset, "checksum"@)),
            ("generator"@, at(dataset, "generator"@)),
            (
                "phases"@,
                JsonView::Object(
                    phase_counts(positions_of(dataset), positions_of(dataset).len() as int),
                ),
            ),
            ("positions"@, JsonView::Unsigned(positions_of(dataset).len() as u64)),
            ("schema_version"@, at(dataset, "schema_version"@)),
            ("seed"@, at(dataset, "seed"@)),
        ],
    )
}

/// What a bundle says of its dataset.
pub fn dataset_block(dataset_payload: &Json) -> (j: Json)
    ensures
        j.view() == dataset_block_view(dataset_payload.view()),
{
    let none: Vec<Json> = Vec::new();
    let listed = copy_of(dataset_payload, "positions");
    let positions = match listed {
        Json::Array(items) => items,
        _ => none,
    };
    assert(items_view(positions@) =~= positions_of(dataset_payload.view()));
    let members: Vec<(String, Json)> = vec![
        field("checksum", copy_of(dataset_payload, "checksum")),
        field("generator", copy_of(dataset_payload, "generator")),
        field("phases", phase_object(&positions)),
        field("positions", Json::Unsigned(positions.len() as u64)),
        field("schema_version", copy_of(dataset_payload, "schema_version")),
        field("seed", copy_of(dataset_payload, "seed")),
    ];
    assert(members_view(members@) =~= dataset_block_view(dataset_payload.view())->Object_0);
    Json::Object(members)
}

/// A bundle of results.
pub open spec fn bundle_view(
    config: JsonView,
    dataset: JsonView,
    observations: Seq<JsonView>,
    head_to_head: JsonView,
    aggregates: JsonView,
    started_at: Seq<char>,
    environment: JsonView,
) -> JsonView {
    JsonView::Object(
        seq![
            ("aggregates"@, aggregates),
            (
                "artifact_contracts"@,
                JsonView::Object(
                    seq![
                        ("head_to_head"@, JsonView::Text(GAME_RESULT_SCHEMA@)),
                        ("observations"@, JsonView::Text(OBSERVATION_SCHEMA@)),
                    ],
                ),
            ),
            ("config"@, config),
            ("contract_version"@, JsonView::Text(CONTRACT_VERSION@)),
            ("dataset"@, dataset_block_view(dataset)),
            ("environment"@, environment),
            ("head_to_head"@, head_to_head),
            ("observations"@, JsonView::Array(observations)),
            ("schema_version"@, JsonView::Unsigned(SCHEMA_VERSION)),
            ("started_at"@, JsonView::Text(started_at)),
        ],
    )
}

/// Assemble a bundle of results. `started_at` is the time of the run and
/// `environment` describes the machine.
pub fn make_bundle(
    config: &Json,
    dataset_payload: &Json,
    observations: Vec<Json>,
    head_to_head: Json,
    aggregates: Json,
    started_at: &str,
    environment: Json,
) -> (j: Json)
    ensures
        j.view() == bundle_view(
            config.view(),
            dataset_payload.view(),
            items_view(observations@),
            head_to_head.view(),
            aggregates.view(),
            started_at@,
            environment.view(),
        ),
{
    let ghost whole = bundle_view(
        config.view(),
        dataset_payload.view(),
        items_view(observations@),
        head_to_head.view(),
        aggregates.view(),
        started_at@,
        environment.view(),
    );
    let contracts: Vec<(String, Json)> = vec![
        field("head_to_head", Json::text(GAME_RESULT_SCHEMA)),
        field("observations", Json::text(OBSERVATION_SCHEMA)),
    ];
    assert(members_view(contracts@) =~= whole->Object_0[1].1->Object_0);
    let members: Vec<(String, Json)> = vec![
        field("aggregates", aggregates),
        field("artifact_contracts", Json::Object(contracts)),
        field("config", config.copy()),
        field("contract_version", Json::text(CONTRACT_VERSION)),
        field("dataset", dataset_block(dataset_payload)),
        field("environment", environment),
        field("head_to_head", head_to_head),
        field("observations", Json::Array(observations)),
        field("schema_version", Json::Unsigned(SCHEMA_VERSION)),
        field("started_at", Json::text(started_at)),
    ];
    assert(members_view(members@) =~= whole->Object_0);
    Json::Object(members)
}

} // verus!
