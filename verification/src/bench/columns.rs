//! The columns of stored rows and the labels of the files that hold them.
use crate::bench::contracts::{
    ARROW_PARQUET_SELFPLAY_SCHEMA, SELFPLAY_CONTRACT_VERSION, SELFPLAY_SCHEMA,
};
use crate::bench::fields::{complain, concat, either, option_text, reports};
use crate::text::same_text;
use vstd::prelude::*;
use vstd::string::*;

verus! {

/// What a column holds.
#[derive(Clone, Copy, Debug, PartialEq, Eq, Structural)]
pub enum ColumnKind {
    Utf8,
    UInt8,
    UInt16,
    UInt32,
    UInt64,
    Int8,
    Float64,
    /// Lists of so many unsigned numbers of 16 bits.
    FixedUInt16(u32),
    /// Lists of so many unsigned numbers of 32 bits.
    FixedUInt32(u32),
    /// Lists of unsigned numbers of 8 bits.
    ListUInt8,
    /// Anything else.
    Other,
}

/// A column: its name, what it holds and whether entries may be missing.
#[derive(Debug)]
pub struct Column {
    pub name: String,
    pub kind: ColumnKind,
    pub nullable: bool,
}

/// What a list of columns says.
pub open spec fn columns_view(columns: Seq<Column>) -> Seq<(Seq<char>, ColumnKind, bool)> {
    columns.map_values(|c: Column| (c.name@, c.kind, c.nullable))
}

fn column(name: &str, kind: ColumnKind, nullable: bool) -> (c: Column)
    ensures
        c.name@ == name@,
        c.kind == kind,
        c.nullable == nullable,
{
    Column { name: name.to_owned(), kind, nullable }
}

/// The columns of self-play rows.
pub open spec fn selfplay_columns() -> Seq<(Seq<char>, ColumnKind, bool)> {
    seq![
        ("logical_schema"@, ColumnKind::Utf8, false),
        ("contract_version"@, ColumnKind::Utf8, false),
        ("game_id"@, ColumnKind::UInt64, false),
        ("ply"@, ColumnKind::UInt16, false),
        ("side_to_move"@, ColumnKind::UInt8, false),
        ("bitboards"@, ColumnKind::FixedUInt16(8), false),
        ("policy_visits"@, ColumnKind::FixedUInt32(64), false),
        ("value"@, ColumnKind::Int8, false),
        ("qfen"@, ColumnKind::Utf8, true),
    ]
}

/// The columns of self-play rows.
pub fn selfplay_arrow_parquet_schema() -> (columns: Vec<Column>)
    ensures
        columns_view(columns@) == selfplay_columns(),
{
    let columns: Vec<Column> = vec![
        column("logical_schema", ColumnKind::Utf8, false),
        column("contract_version", ColumnKind::Utf8, false),
        column("game_id", ColumnKind::UInt64, false),
        column("ply", ColumnKind::UInt16, false),
        column("side_to_move", ColumnKind::UInt8, false),
        column("bitboards", ColumnKind::FixedUInt16(8), false),
        column("policy_visits", ColumnKind::FixedUInt32(64), false),
        column("value", ColumnKind::Int8, false),
        column("qfen", ColumnKind::Utf8, true),
    ];
    assert(columns_view(columns@) =~= selfplay_columns());
    columns
}

/// The columns of observations.
pub open spec fn observation_columns() -> Seq<(Seq<char>, ColumnKind, bool)> {
    seq![
        ("schema"@, ColumnKind::Utf8, false),
        ("contract_version"@, ColumnKind::Utf8, false),
        ("run_id"@, ColumnKind::Utf8, false),
        ("row_id"@, ColumnKind::UInt64, false),
        ("position_key"@, ColumnKind::Utf8, false),
        ("ply"@, ColumnKind::UInt16, false),
        ("side_to_move"@, ColumnKind::UInt8, false),
        ("bitboards"@, ColumnKind::FixedUInt16(8), false),
        ("qfen"@, ColumnKind::Utf8, true),
        ("legal_action_mask"@, ColumnKind::UInt64, false),
        ("engine_kind"@, ColumnKind::Utf8, false),
        ("engine_version"@, ColumnKind::Utf8, false),
        ("elapsed_ms"@, ColumnKind::UInt32, false),
        ("policy_visits"@, ColumnKind::FixedUInt32(64), false),
        ("value"@, ColumnKind::Float64, false),
        ("value_source"@, ColumnKind::Utf8, false),
        ("source_confidence"@, ColumnKind::Float64, false),
    ]
}

/// The columns of observations.
pub fn observation_parquet_schema() -> (columns: Vec<Column>)
    ensures
        columns_view(columns@) == observation_columns(),
{
    let columns: Vec<Column> = vec![
        column("schema", ColumnKind::Utf8, false),
        column("contract_version", ColumnKind::Utf8, false),
        column("run_id", ColumnKind::Utf8, false),
        column("row_id", ColumnKind::UInt64, false),
        column("position_key", ColumnKind::Utf8, false),
        column("ply", ColumnKind::UInt16, false),
        column("side_to_move", ColumnKind::UInt8, false),
        column("bitboards", ColumnKind::FixedUInt16(8), false),
        column("qfen", ColumnKind::Utf8, true),
        column("legal_action_mask", ColumnKind::UInt64, false),
        column("engine_kind", ColumnKind::Utf8, false),
        column("engine_version", ColumnKind::Utf8, false),
        column("elapsed_ms", ColumnKind::UInt32, false),
        column("policy_visits", ColumnKind::FixedUInt32(64), false),
        column("value", ColumnKind::Float64, false),
        column("value_source", ColumnKind::Utf8, false),
        column("source_confidence", ColumnKind::Float64, false),
    ];
    assert(columns_view(columns@) =~= observation_columns());
    columns
}

/// The columns of game results.
pub open spec fn game_result_columns() -> Seq<(Seq<char>, ColumnKind, bool)> {
    seq![
        ("schema"@, ColumnKind::Utf8, false),
        ("contract_version"@, ColumnKind::Utf8, false),
        ("game_id"@, ColumnKind::Utf8, false),
        ("started_at"@, ColumnKind::Utf8, false),
        ("p0_engine_kind"@, ColumnKind::Utf8, false),
        ("p0_engine_version"@, ColumnKind::Utf8, false),
        ("p1_engine_kind"@, ColumnKind::Utf8, false),
        ("p1_engine_version"@, ColumnKind::Utf8, false),
        ("initial_position_key"@, ColumnKind::Utf8, false),
        ("winner"@, ColumnKind::UInt8, false),
        ("plies"@, ColumnKind::UInt16, false),
        ("terminal_reason"@, ColumnKind::Utf8, false),
        ("move_action_indices"@, ColumnKind::ListUInt8, false),
        ("run_id"@, ColumnKind::Utf8, true),
    ]
}

/// The columns of game results.
pub fn game_result_parquet_schema() -> (columns: Vec<Column>)
    ensures
        columns_view(columns@) == game_result_columns(),
{
    let columns: Vec<Column> = vec![
        column("schema", ColumnKind::Utf8, false),
        column("contract_version", ColumnKind::Utf8, false),
        column("game_id", ColumnKind::Utf8, false),
        column("started_at", ColumnKind::Utf8, false),
        column("p0_engine_kind", ColumnKind::Utf8, false),
        column("p0_engine_version", ColumnKind::Utf8, false),
        column("p1_engine_kind", ColumnKind::Utf8, false),
        column("p1_engine_version", ColumnKind::Utf8, false),
        column("initial_position_key", ColumnKind::Utf8, false),
        column("winner", ColumnKind::UInt8, false),
        column("plies", ColumnKind::UInt16, false),
        column("terminal_reason", ColumnKind::Utf8, false),
        column("move_action_indices", ColumnKind::ListUInt8, false),
        column("run_id", ColumnKind::Utf8, true),
    ];
    assert(columns_view(columns@) =~= game_result_columns());
    columns
}

/// Whether two lists of columns are the same.
fn same_columns(a: &Vec<Column>, b: &Vec<Column>) -> (r: bool)
    ensures
        r <==> columns_view(a@) == columns_view(b@),
{
    if a.len() != b.len() {
        assert(columns_view(a@).len() != columns_view(b@).len());
        return false;
    }
    let mut i: usize = 0;
    while i < a.len()
        invariant
            i <= a@.len(),
            a@.len() == b@.len(),
            forall|k: int| 0 <= k < i ==> #[trigger] columns_view(a@)[k] == columns_view(b@)[k],
        decreases a@.len() - i,
    {
        if !same_text(a[i].name.as_str(), b[i].name.as_str()) || a[i].kind != b[i].kind
            || a[i].nullable != b[i].nullable {
            assert(columns_view(a@)[i as int] != columns_view(b@)[i as int]);
            return false;
        }
        i = i + 1;
    }
    assert(columns_view(a@) =~= columns_view(b@));
    true
}

pub fn validate_selfplay_arrow_schema(columns: &Vec<Column>) -> (r: Result<(), String>)
    ensures
        reports(
            r,
            complain(
                columns_view(columns@) != selfplay_columns(),
                "parquet arrow schema does not match arrow-parquet-selfplay.v1"@,
            ),
        ),
{
    if !same_columns(columns, &selfplay_arrow_parquet_schema()) {
        return Err("parquet arrow schema does not match arrow-parquet-selfplay.v1".to_owned());
    }
    Ok(())
}

pub fn validate_observation_arrow_schema(columns: &Vec<Column>) -> (r: Result<(), String>)
    ensures
        reports(
            r,
            complain(
                columns_view(columns@) != observation_columns(),
                "parquet arrow schema does not match observation.v1"@,
            ),
        ),
{
    if !same_columns(columns, &observation_parquet_schema()) {
        return Err("parquet arrow schema does not match observation.v1".to_owned());
    }
    Ok(())
}

pub fn validate_game_result_arrow_schema(columns: &Vec<Column>) -> (r: Result<(), String>)
    ensures
        reports(
            r,
            complain(
                columns_view(columns@) != game_result_columns(),
                "parquet arrow schema does not match game-result.v1"@,
            ),
        ),
{
    if !same_columns(columns, &game_result_parquet_schema()) {
        return Err("parquet arrow schema does not match game-result.v1".to_owned());
    }
    Ok(())
}

/// What a list of labels says: each has a name and perhaps a value.
pub open spec fn labels_view(labels: Seq<(String, Option<String>)>) -> Seq<
    (Seq<char>, Option<Seq<char>>),
> {
    labels.map_values(|l: (String, Option<String>)| (l.0@, option_text(l.1)))
}

fn label(name: &str, value: &str) -> (l: (String, Option<String>))
    ensures
        l.0@ == name@,
        option_text(l.1) == Some(value@),
{
    (name.to_owned(), Some(value.to_owned()))
}

/// The labels of a file with rows of one schema and version.
pub open spec fn contract_labels(schema: Seq<char>, version: Seq<char>) -> Seq<
    (Seq<char>, Option<Seq<char>>),
> {
    seq![
        ("physical_schema"@, Some(schema)),
        ("logical_schema"@, Some(schema)),
        ("logical_contract"@, Some(schema)),
        ("contracts_release"@, Some(version)),
        ("contract_version"@, Some(version)),
    ]
}

/// The labels of a file with rows of one schema and version.
pub fn contract_arrow_metadata(contract_schema: &str, version: &str) -> (labels: Vec<
    (String, Option<String>),
>)
    ensures
        labels_view(labels@) == contract_labels(contract_schema@, version@),
{
    let labels: Vec<(String, Option<String>)> = vec![
        label("physical_schema", contract_schema),
        label("logical_schema", contract_schema),
        label("logical_contract", contract_schema),
        label("contracts_release", version),
        label("contract_version", version),
    ];
    assert(labels_view(labels@) =~= contract_labels(contract_schema@, version@));
    labels
}

/// The labels of a file with self-play rows.
pub open spec fn selfplay_labels() -> Seq<(Seq<char>, Option<Seq<char>>)> {
    seq![
        ("schema"@, Some(ARROW_PARQUET_SELFPLAY_SCHEMA@)),
        ("logical_schema"@, Some(SELFPLAY_SCHEMA@)),
        ("logical_contract"@, Some(SELFPLAY_SCHEMA@)),
        ("contracts_release"@, Some(SELFPLAY_CONTRACT_VERSION@)),
        ("contract_version"@, Some(SELFPLAY_CONTRACT_VERSION@)),
    ]
}

/// The labels of a file with self-play rows.
pub fn selfplay_arrow_parquet_metadata() -> (labels: Vec<(String, Option<String>)>)
    ensures
        labels_view(labels@) == selfplay_labels(),
{
    let labels: Vec<(String, Option<String>)> = vec![
        label("schema", ARROW_PARQUET_SELFPLAY_SCHEMA),
        label("logical_schema", SELFPLAY_SCHEMA),
        label("logical_contract", SELFPLAY_SCHEMA),
        label("contracts_release", SELFPLAY_CONTRACT_VERSION),
        label("contract_version", SELFPLAY_CONTRACT_VERSION),
    ];
    assert(labels_view(labels@) =~= selfplay_labels());
    labels
}

/// The value of the last of the first `n` labels called `name` that has one.
pub open spec fn label_value(
    labels: Seq<(Seq<char>, Option<Seq<char>>)>,
    n: int,
    name: Seq<char>,
) -> Option<Seq<char>>
    decreases n,
{
    if n <= 0 {
        None
    } else if labels[n - 1].0 == name && labels[n - 1].1 is Some {
        labels[n - 1].1
    } else {
        label_value(labels, n - 1, name)
    }
}

/// The complaint about a label, which may go by an alias.
pub open spec fn label_complaint(
    labels: Seq<(Seq<char>, Option<Seq<char>>)>,
    key: Seq<char>,
    alias: Option<Seq<char>>,
    expected: Seq<char>,
) -> Option<Seq<char>> {
    let n = labels.len() as int;
    let found = match label_value(labels, n, key) {
        Some(v) => Some(v),
        None => match alias {
            Some(alias) => label_value(labels, n, alias),
            None => None,
        },
    };
    match found {
        None => Some(
            match alias {
                Some(alias) => "parquet metadata "@ + key + " (or "@ + alias + ") is required"@,
                None => "parquet metadata "@ + key + " is required"@,
            },
        ),
        Some(actual) => complain(
            actual != expected,
            "parquet metadata "@ + key + " must be "@ + expected + ", got "@ + actual,
        ),
    }
}

fn find_label<'a>(labels: &'a Vec<(String, Option<String>)>, name: &str) -> (r: Option<&'a str>)
    ensures
        match r {
            Some(v) => label_value(labels_view(labels@), labels@.len() as int, name@) == Some(v@),
            None => label_value(labels_view(labels@), labels@.len() as int, name@) is None,
        },
{
    let ghost views = labels_view(labels@);
    let mut i: usize = labels.len();
    while i > 0
        invariant
            i <= labels@.len(),
            views == labels_view(labels@),
            label_value(views, labels@.len() as int, name@) == label_value(views, i as int, name@),
        decreases i,
    {
        assert(views[i - 1] == (labels@[i - 1].0@, option_text(labels@[i - 1].1)));
        if same_text(labels[i - 1].0.as_str(), name) {
            if let Some(v) = &labels[i - 1].1 {
                return Some(v.as_str());
            }
        }
        i = i - 1;
    }
    None
}

pub fn validate_metadata_value_with_alias(
    metadata: &Vec<(String, Option<String>)>,
    key: &str,
    alias: Option<&str>,
    expected: &str,
) -> (r: Result<(), String>)
    ensures
        reports(
            r,
            label_complaint(
                labels_view(metadata@),
                key@,
                match alias {
                    Some(a) => Some(a@),
                    None => None,
                },
                expected@,
            ),
        ),
{
    let found = match find_label(metadata, key) {
        Some(v) => Some(v),
        None => match alias {
            Some(a) => find_label(metadata, a),
            None => None,
        },
    };
    let mut m = concat("parquet metadata ", key);
    match found {
        None => {
            if let Some(a) = alias {
                m.append(" (or ");
                m.append(a);
                m.append(") is required");
            } else {
                m.append(" is required");
            }
            Err(m)
        },
        Some(actual) => {
            if !same_text(actual, expected) {
                m.append(" must be ");
                m.append(expected);
                m.append(", got ");
                m.append(actual);
                return Err(m);
            }
            Ok(())
        },
    }
}

/// The first thing that is wrong with the labels of a file with self-play rows.
pub open spec fn selfplay_labels_complaint(
    labels: Option<Seq<(Seq<char>, Option<Seq<char>>)>>,
) -> Option<Seq<char>> {
    match labels {
        None => Some("parquet metadata is required"@),
        Some(l) => either(
            label_complaint(
                l,
                "schema"@,
                Some("physical_schema"@),
                ARROW_PARQUET_SELFPLAY_SCHEMA@,
            ),
            either(
                label_complaint(l, "logical_contract"@, Some("logical_schema"@), SELFPLAY_SCHEMA@),
                label_complaint(
                    l,
                    "contract_version"@,
                    Some("contracts_release"@),
                    SELFPLAY_CONTRACT_VERSION@,
                ),
            ),
        ),
    }
}

/// What optional labels say.
pub open spec fn optional_labels(labels: Option<Vec<(String, Option<String>)>>) -> Option<
    Seq<(Seq<char>, Option<Seq<char>>)>,
> {
    match labels {
        Some(l) => Some(labels_view(l@)),
        None => None,
    }
}

pub fn validate_selfplay_arrow_parquet_metadata(
    metadata: &Option<Vec<(String, Option<String>)>>,
) -> (r: Result<(), String>)
    ensures
        reports(r, selfplay_labels_complaint(optional_labels(*metadata))),
{
    let labels = match metadata {
        Some(l) => l,
        None => return Err("parquet metadata is required".to_owned()),
    };
    validate_metadata_value_with_alias(
        labels,
        "schema",
        Some("physical_schema"),
        ARROW_PARQUET_SELFPLAY_SCHEMA,
    )?;
    validate_metadata_value_with_alias(
        labels,
        "logical_contract",
        Some("logical_schema"),
        SELFPLAY_SCHEMA,
    )?;
    validate_metadata_value_with_alias(
        labels,
        "contract_version",
        Some("contracts_release"),
        SELFPLAY_CONTRACT_VERSION,
    )?;
    Ok(())
}

/// The first thing that is wrong with the labels of a file with rows of one schema
/// and version.
pub open spec fn contract_labels_complaint(
    labels: Option<Seq<(Seq<char>, Option<Seq<char>>)>>,
    schema: Seq<char>,
    version: Seq<char>,
) -> Option<Seq<char>> {
    match labels {
        None => Some("parquet metadata is required"@),
        Some(l) => either(
            label_complaint(l, "physical_schema"@, None, schema),
            either(
                label_complaint(l, "logical_schema"@, None, schema),
                either(
                    label_complaint(l, "logical_contract"@, None, schema),
                    either(
                        label_complaint(l, "contracts_release"@, None, version),
                        label_complaint(l, "contract_version"@, None, version),
                    ),
                ),
            ),
        ),
    }
}

pub fn validate_contract_parquet_metadata(
    metadata: &Option<Vec<(String, Option<String>)>>,
    expected_schema: &str,
    expected_version: &str,
) -> (r: Result<(), String>)
    ensures
        reports(
            r,
            contract_labels_complaint(
                optional_labels(*metadata),
                expected_schema@,
                expected_version@,
            ),
        ),
{
    let labels = match metadata {
        Some(l) => l,
        None => return Err("parquet metadata is required".to_owned()),
    };
    validate_metadata_value_with_alias(labels, "physical_schema", None, expected_schema)?;
    validate_metadata_value_with_alias(labels, "logical_schema", None, expected_schema)?;
    validate_metadata_value_with_alias(labels, "logical_contract", None, expected_schema)?;
    validate_metadata_value_with_alias(labels, "contracts_release", None, expected_version)?;
    validate_metadata_value_with_alias(labels, "contract_version", None, expected_version)?;
    Ok(())
}

/// A file with the labels that this library writes is accepted.
pub proof fn law_own_labels_are_accepted(schema: Seq<char>, version: Seq<char>)
    ensures
        contract_labels_complaint(Some(contract_labels(schema, version)), schema, version) is None,
        selfplay_labels_complaint(Some(selfplay_labels())) is None,
{
    reveal_strlit("schema");
    reveal_strlit("physical_schema");
    reveal_strlit("logical_schema");
    reveal_strlit("logical_contract");
    reveal_strlit("contracts_release");
    reveal_strlit("contract_version");
    assert("schema"@.len() == 6);
    assert("physical_schema"@.len() == 15);
    assert("logical_schema"@.len() == 14);
    assert("logical_contract"@.len() == 16);
    assert("contracts_release"@.len() == 17);
    assert("contract_version"@.len() == 16);
    assert("logical_contract"@[0] != "contract_version"@[0]);
    reveal_with_fuel(label_value, 6);
}

} // verus!
