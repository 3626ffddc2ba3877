//! Rows and manifests that benchmark runs exchange with training and analytics.
use crate::bench::fields::{
    blank_complaint, complain, concat, concat3, concat4, either, item_field, item_name, option_text,
    option_texts, optional_bool, optional_bool_complaint, optional_bool_field,
    optional_number_complaint, optional_number_field, optional_string, optional_string_list,
    optional_text_complaint, optional_text_field, optional_texts_complaint, optional_texts_field,
    number_complaint, number_field, reports, required_string, required_string_list, required_u64,
    optional_u64, text_complaint, text_field, texts, texts_complaint, texts_field,
    validate_non_empty,
};
use crate::bench::json::{parse_json, parsed_json, Json, JsonView};
use crate::text::same_text;
pub use crate::bench::actions::{action_index, canonical_key_hex, legal_action_mask};
pub use crate::bench::export::{
    export_game_result_rows, export_observation_rows, game_result_v1_row, observation_v1_row,
    position_lookup, search_summary_row, SearchSummaryRunConfig,
};
pub use crate::bench::game_result::{parse_game_result_row, GameResultRow};
pub use crate::bench::observation::{parse_observation_row, ObservationRow};
pub use crate::bench::selfplay::{
    parse_selfplay_row, selfplay_arrow_parquet_record, selfplay_dense_policy_visits,
    selfplay_v1_row, SelfPlayPolicyVisit, SelfPlayRow,
};
use vstd::prelude::*;
use vstd::string::*;

verus! {

pub const CONTRACT_VERSION: &'static str = "1.2.0";

pub const MODEL_CHECKPOINT_CONTRACT_VERSION: &'static str = "1.2.0";

pub const SELFPLAY_CONTRACT_VERSION: &'static str = "1.2.0";

pub const OBSERVATION_CONTRACT_VERSION: &'static str = "1.2.0";

pub const GAME_RESULT_CONTRACT_VERSION: &'static str = "1.2.0";

pub const SEARCH_SUMMARY_CONTRACT_VERSION: &'static str = "1.2.0";

pub const SELFPLAY_SCHEMA: &'static str = "selfplay.v1";

pub const ARROW_PARQUET_SELFPLAY_SCHEMA: &'static str = "arrow-parquet-selfplay.v1";

pub const OPENING_BOOK_SCHEMA: &'static str = "opening-book.v1";

pub const OBSERVATION_SCHEMA: &'static str = "observation.v1";

pub const GAME_RESULT_SCHEMA: &'static str = "game-result.v1";

pub const MODEL_CHECKPOINT_SCHEMA: &'static str = "model-checkpoint.v1";

/// The schema of rows that report on single searches. It is no model input.
pub const SEARCH_SUMMARY_SCHEMA: &'static str = "search-summary.v1";

/// Whether model weights may come in the format `f`.
pub open spec fn supported_weights(f: Seq<char>) -> bool {
    f == "safetensors"@ || f == "onnx"@ || f == "npz"@ || f == "custom-binary"@
}

pub fn is_supported_weights_format(weights_format: &str) -> (r: bool)
    ensures
        r <==> supported_weights(weights_format@),
{
    same_text(weights_format, "safetensors") || same_text(weights_format, "onnx") || same_text(
        weights_format,
        "npz",
    ) || same_text(weights_format, "custom-binary")
}

/// Whether a model may take the contract `c` as its input.
pub open spec fn supported_input(c: Seq<char>) -> bool {
    c == "qfen.v1"@ || c == "bitboard.v1"@ || c == "action-index.v1"@ || c == SELFPLAY_SCHEMA@ || c
        == "tensor-board.v1"@ || c == ARROW_PARQUET_SELFPLAY_SCHEMA@ || c == OPENING_BOOK_SCHEMA@
        || c == "opening-book-summary.v1"@ || c == OBSERVATION_SCHEMA@ || c == GAME_RESULT_SCHEMA@
}

pub fn is_supported_model_input_contract(input_contract: &str) -> (r: bool)
    ensures
        r <==> supported_input(input_contract@),
{
    same_text(input_contract, "qfen.v1") || same_text(input_contract, "bitboard.v1") || same_text(
        input_contract,
        "action-index.v1",
    ) || same_text(input_contract, SELFPLAY_SCHEMA) || same_text(input_contract, "tensor-board.v1")
        || same_text(input_contract, ARROW_PARQUET_SELFPLAY_SCHEMA) || same_text(
        input_contract,
        OPENING_BOOK_SCHEMA,
    ) || same_text(input_contract, "opening-book-summary.v1") || same_text(
        input_contract,
        OBSERVATION_SCHEMA,
    ) || same_text(input_contract, GAME_RESULT_SCHEMA)
}

/// The description of a trained model's checkpoint.
#[derive(Debug)]
pub struct ModelCheckpointManifest {
    pub schema: String,
    pub contract_version: String,
    pub model_id: String,
    pub model_family: String,
    pub created_at: String,
    pub input_contracts: Vec<String>,
    pub output_contract: String,
    pub weights_format: String,
    pub weights_hash: String,
    pub size_bytes: u64,
    pub training_data_manifest: String,
    pub calibration_report: String,
    pub feature_hash: Option<String>,
    pub quantization: Option<String>,
    pub parameter_count: Option<u64>,
    pub architecture: Option<String>,
    pub legal_action_mask_required: Option<bool>,
    pub recommended_engine_order: Option<Vec<String>>,
    pub notes: Option<String>,
}

/// What a checkpoint manifest says.
pub struct ManifestView {
    pub schema: Seq<char>,
    pub contract_version: Seq<char>,
    pub model_id: Seq<char>,
    pub model_family: Seq<char>,
    pub created_at: Seq<char>,
    pub input_contracts: Seq<Seq<char>>,
    pub output_contract: Seq<char>,
    pub weights_format: Seq<char>,
    pub weights_hash: Seq<char>,
    pub size_bytes: u64,
    pub training_data_manifest: Seq<char>,
    pub calibration_report: Seq<char>,
    pub feature_hash: Option<Seq<char>>,
    pub quantization: Option<Seq<char>>,
    pub parameter_count: Option<u64>,
    pub architecture: Option<Seq<char>>,
    pub legal_action_mask_required: Option<bool>,
    pub recommended_engine_order: Option<Seq<Seq<char>>>,
    pub notes: Option<Seq<char>>,
}

/// The complaint about an optional text that must not be blank.
pub open spec fn optional_blank_complaint(
    field: Seq<char>,
    s: Option<Seq<char>>,
) -> Option<Seq<char>> {
    match s {
        Some(s) => blank_complaint(field, s),
        None => None,
    }
}

/// The complaint about the input contracts from the one at `i` on.
pub open spec fn inputs_complaint(inputs: Seq<Seq<char>>, i: int) -> Option<Seq<char>>
    decreases inputs.len() - i,
{
    if i < 0 || i >= inputs.len() {
        None
    } else {
        either(
            blank_complaint(item_name("input_contracts"@, i), inputs[i]),
            either(
                complain(
                    !supported_input(inputs[i]),
                    "unsupported input contract: "@ + inputs[i],
                ),
                inputs_complaint(inputs, i + 1),
            ),
        )
    }
}

/// The complaint about the engines of a list from the one at `i` on.
pub open spec fn engines_complaint(engines: Seq<Seq<char>>, i: int) -> Option<Seq<char>>
    decreases engines.len() - i,
{
    if i < 0 || i >= engines.len() {
        None
    } else {
        either(
            blank_complaint(item_name("recommended_engine_order"@, i), engines[i]),
            engines_complaint(engines, i + 1),
        )
    }
}

/// The complaint about what identifies the model and its inputs.
pub open spec fn identity_complaint(m: ManifestView) -> Option<Seq<char>> {
    either(
        complain(
            m.schema != MODEL_CHECKPOINT_SCHEMA@,
            "schema must be "@ + MODEL_CHECKPOINT_SCHEMA@ + ", got "@ + m.schema,
        ),
        either(
            complain(
                m.contract_version != MODEL_CHECKPOINT_CONTRACT_VERSION@,
                "contract_version must be "@ + MODEL_CHECKPOINT_CONTRACT_VERSION@ + ", got "@
                    + m.contract_version,
            ),
            either(
                blank_complaint("model_id"@, m.model_id),
                either(
                    blank_complaint("model_family"@, m.model_family),
                    either(
                        blank_complaint("created_at"@, m.created_at),
                        either(
                            complain(
                                m.input_contracts.len() == 0,
                                "input_contracts must be non-empty"@,
                            ),
                            inputs_complaint(m.input_contracts, 0),
                        ),
                    ),
                ),
            ),
        ),
    )
}

/// The complaint about the weights and what they were made from.
pub open spec fn weights_complaint(m: ManifestView) -> Option<Seq<char>> {
    either(
        blank_complaint("output_contract"@, m.output_contract),
        either(
            blank_complaint("weights_format"@, m.weights_format),
            either(
                complain(
                    !supported_weights(m.weights_format),
                    "weights_format "@ + m.weights_format + " is not supported"@,
                ),
                either(
                    blank_complaint("weights_hash"@, m.weights_hash),
                    either(
                        complain(m.size_bytes == 0, "size_bytes must be greater than 0"@),
                        either(
                            blank_complaint("training_data_manifest"@, m.training_data_manifest),
                            blank_complaint("calibration_report"@, m.calibration_report),
                        ),
                    ),
                ),
            ),
        ),
    )
}

/// The complaint about what a manifest may leave out.
pub open spec fn extras_complaint(m: ManifestView) -> Option<Seq<char>> {
    either(
        optional_blank_complaint("feature_hash"@, m.feature_hash),
        either(
            optional_blank_complaint("quantization"@, m.quantization),
            either(
                complain(
                    m.parameter_count == Some(0u64),
                    "parameter_count must be greater than 0 when present"@,
                ),
                either(
                    optional_blank_complaint("architecture"@, m.architecture),
                    either(
                        match m.recommended_engine_order {
                            Some(order) => either(
                                complain(
                                    order.len() == 0,
                                    "recommended_engine_order must be non-empty when present"@,
                                ),
                                engines_complaint(order, 0),
                            ),
                            None => None,
                        },
                        optional_blank_complaint("notes"@, m.notes),
                    ),
                ),
            ),
        ),
    )
}

/// The first thing that is wrong with a manifest.
pub open spec fn manifest_complaint(m: ManifestView) -> Option<Seq<char>> {
    either(identity_complaint(m), either(weights_complaint(m), extras_complaint(m)))
}

/// The complaint about the fields that a JSON manifest must have.
pub open spec fn required_fields_complaint(j: JsonView) -> Option<Seq<char>> {
    either(
        text_complaint(j, "schema"@),
        either(
            text_complaint(j, "contract_version"@),
            either(
                text_complaint(j, "model_id"@),
                either(
                    text_complaint(j, "model_family"@),
                    either(
                        text_complaint(j, "created_at"@),
                        either(
                            texts_complaint(j, "input_contracts"@),
                            either(
                                text_complaint(j, "output_contract"@),
                                either(
                                    text_complaint(j, "weights_format"@),
                                    either(
                                        text_complaint(j, "weights_hash"@),
                                        either(
                                            number_complaint(j, "size_bytes"@),
                                            either(
                                                text_complaint(j, "training_data_manifest"@),
                                                text_complaint(j, "calibration_report"@),
                                            ),
                                        ),
                                    ),
                                ),
                            ),
                        ),
                    ),
                ),
            ),
        ),
    )
}

/// The complaint about the fields that a JSON manifest may have.
pub open spec fn optional_fields_complaint(j: JsonView) -> Option<Seq<char>> {
    either(
        optional_text_complaint(j, "feature_hash"@),
        either(
            optional_text_complaint(j, "quantization"@),
            either(
                optional_number_complaint(j, "parameter_count"@),
                either(
                    optional_text_complaint(j, "architecture"@),
                    either(
                        optional_bool_complaint(j, "legal_action_mask_required"@),
                        either(
                            optional_texts_complaint(j, "recommended_engine_order"@),
                            optional_text_complaint(j, "notes"@),
                        ),
                    ),
                ),
            ),
        ),
    )
}

/// The manifest that a JSON object with the right fields describes.
pub open spec fn manifest_of(j: JsonView) -> ManifestView {
    ManifestView {
        schema: text_field(j, "schema"@),
        contract_version: text_field(j, "contract_version"@),
        model_id: text_field(j, "model_id"@),
        model_family: text_field(j, "model_family"@),
        created_at: text_field(j, "created_at"@),
        input_contracts: texts_field(j, "input_contracts"@),
        output_contract: text_field(j, "output_contract"@),
        weights_format: text_field(j, "weights_format"@),
        weights_hash: text_field(j, "weights_hash"@),
        size_bytes: number_field(j, "size_bytes"@),
        training_data_manifest: text_field(j, "training_data_manifest"@),
        calibration_report: text_field(j, "calibration_report"@),
        feature_hash: optional_text_field(j, "feature_hash"@),
        quantization: optional_text_field(j, "quantization"@),
        parameter_count: optional_number_field(j, "parameter_count"@),
        architecture: optional_text_field(j, "architecture"@),
        legal_action_mask_required: optional_bool_field(j, "legal_action_mask_required"@),
        recommended_engine_order: optional_texts_field(j, "recommended_engine_order"@),
        notes: optional_text_field(j, "notes"@),
    }
}

/// The manifest that a JSON value describes, or why it describes none.
pub open spec fn parsed_manifest(j: JsonView) -> Result<ManifestView, Seq<char>> {
    if !(j is Object) {
        Err("model checkpoint manifest must be a JSON object"@)
    } else {
        match either(
            required_fields_complaint(j),
            either(optional_fields_complaint(j), manifest_complaint(manifest_of(j))),
        ) {
            Some(e) => Err(e),
            None => Ok(manifest_of(j)),
        }
    }
}

fn validate_optional(field: &str, value: &Option<String>) -> (r: Result<(), String>)
    ensures
        reports(r, optional_blank_complaint(field@, option_text(*value))),
{
    match value {
        Some(s) => validate_non_empty(field, s.as_str()),
        None => Ok(()),
    }
}

fn validate_inputs(inputs: &Vec<String>) -> (r: Result<(), String>)
    ensures
        reports(r, inputs_complaint(texts(inputs@), 0)),
{
    let ghost views = texts(inputs@);
    let mut i: usize = 0;
    while i < inputs.len()
        invariant
            i <= inputs@.len(),
            views == texts(inputs@),
            inputs_complaint(views, 0) == inputs_complaint(views, i as int),
        decreases inputs@.len() - i,
    {
        assert(views[i as int] == inputs@[i as int]@);
        let name = item_field("input_contracts", i);
        validate_non_empty(name.as_str(), inputs[i].as_str())?;
        if !is_supported_model_input_contract(inputs[i].as_str()) {
            return Err(concat("unsupported input contract: ", inputs[i].as_str()));
        }
        i = i + 1;
    }
    Ok(())
}

fn validate_engines(engines: &Vec<String>) -> (r: Result<(), String>)
    ensures
        reports(r, engines_complaint(texts(engines@), 0)),
{
    let ghost views = texts(engines@);
    let mut i: usize = 0;
    while i < engines.len()
        invariant
            i <= engines@.len(),
            views == texts(engines@),
            engines_complaint(views, 0) == engines_complaint(views, i as int),
        decreases engines@.len() - i,
    {
        assert(views[i as int] == engines@[i as int]@);
        let name = item_field("recommended_engine_order", i);
        validate_non_empty(name.as_str(), engines[i].as_str())?;
        i = i + 1;
    }
    Ok(())
}

impl ModelCheckpointManifest {
    /// What the manifest says.
    pub open spec fn view(&self) -> ManifestView {
        ManifestView {
            schema: self.schema@,
            contract_version: self.contract_version@,
            model_id: self.model_id@,
            model_family: self.model_family@,
            created_at: self.created_at@,
            input_contracts: texts(self.input_contracts@),
            output_contract: self.output_contract@,
            weights_format: self.weights_format@,
            weights_hash: self.weights_hash@,
            size_bytes: self.size_bytes,
            training_data_manifest: self.training_data_manifest@,
            calibration_report: self.calibration_report@,
            feature_hash: option_text(self.feature_hash),
            quantization: option_text(self.quantization),
            parameter_count: self.parameter_count,
            architecture: option_text(self.architecture),
            legal_action_mask_required: self.legal_action_mask_required,
            recommended_engine_order: option_texts(self.recommended_engine_order),
            notes: option_text(self.notes),
        }
    }

    pub fn from_json_str(text: &str) -> (r: Result<Self, String>)
        ensures
            match parsed_json(text@) {
                Err(e) => r matches Err(m) && m@ == "parse model checkpoint: "@ + e,
                Ok(j) => match (r, parsed_manifest(j)) {
                    (Ok(m), Ok(v)) => m.view() == v,
                    (Err(m), Err(e)) => m@ == e,
                    _ => false,
                },
            },
    {
        match parse_json(text) {
            Ok(value) => Self::from_json_value(&value),
            Err(e) => Err(concat("parse model checkpoint: ", e.as_str())),
        }
    }

    pub fn from_json_value(value: &Json) -> (r: Result<Self, String>)
        ensures
            match (r, parsed_manifest(value.view())) {
                (Ok(m), Ok(v)) => m.view() == v,
                (Err(m), Err(e)) => m@ == e,
                _ => false,
            },
    {
        match value {
            Json::Object(_) => {},
            _ => return Err("model checkpoint manifest must be a JSON object".to_owned()),
        }
        let manifest = Self {
            schema: required_string(value, "schema")?,
            contract_version: required_string(value, "contract_version")?,
            model_id: required_string(value, "model_id")?,
            model_family: required_string(value, "model_family")?,
            created_at: required_string(value, "created_at")?,
            input_contracts: required_string_list(value, "input_contracts")?,
            output_contract: required_string(value, "output_contract")?,
            weights_format: required_string(value, "weights_format")?,
            weights_hash: required_string(value, "weights_hash")?,
            size_bytes: required_u64(value, "size_bytes")?,
            training_data_manifest: required_string(value, "training_data_manifest")?,
            calibration_report: required_string(value, "calibration_report")?,
            feature_hash: optional_string(value, "feature_hash")?,
            quantization: optional_string(value, "quantization")?,
            parameter_count: optional_u64(value, "parameter_count")?,
            architecture: optional_string(value, "architecture")?,
            legal_action_mask_required: optional_bool(value, "legal_action_mask_required")?,
            recommended_engine_order: optional_string_list(value, "recommended_engine_order")?,
            notes: optional_string(value, "notes")?,
        };
        assert(manifest.view() == manifest_of(value.view()));
        manifest.validate()?;
        Ok(manifest)
    }

    /// Check the manifest. The error is about the first thing that is wrong.
    pub fn validate(&self) -> (r: Result<(), String>)
        ensures
            reports(r, manifest_complaint(self.view())),
    {
        if !same_text(self.schema.as_str(), MODEL_CHECKPOINT_SCHEMA) {
            return Err(
                concat4(
                    "schema must be ",
                    MODEL_CHECKPOINT_SCHEMA,
                    ", got ",
                    self.schema.as_str(),
                ),
            );
        }
        if !same_text(self.contract_version.as_str(), MODEL_CHECKPOINT_CONTRACT_VERSION) {
            return Err(
                concat4(
                    "contract_version must be ",
                    MODEL_CHECKPOINT_CONTRACT_VERSION,
                    ", got ",
                    self.contract_version.as_str(),
                ),
            );
        }
        validate_non_empty("model_id", self.model_id.as_str())?;
        validate_non_empty("model_family", self.model_family.as_str())?;
        validate_non_empty("created_at", self.created_at.as_str())?;
        if self.input_contracts.len() == 0 {
            return Err("input_contracts must be non-empty".to_owned());
        }
        validate_inputs(&self.input_contracts)?;
        validate_non_empty("output_contract", self.output_contract.as_str())?;
        validate_non_empty("weights_format", self.weights_format.as_str())?;
        if !is_supported_weights_format(self.weights_format.as_str()) {
            return Err(
                concat3("weights_format ", self.weights_format.as_str(), " is not supported"),
            );
        }
        validate_non_empty("weights_hash", self.weights_hash.as_str())?;
        if self.size_bytes == 0 {
            return Err("size_bytes must be greater than 0".to_owned());
        }
        validate_non_empty("training_data_manifest", self.training_data_manifest.as_str())?;
        validate_non_empty("calibration_report", self.calibration_report.as_str())?;
        validate_optional("feature_hash", &self.feature_hash)?;
        validate_optional("quantization", &self.quantization)?;
        if let Some(count) = self.parameter_count {
            if count == 0 {
                return Err("parameter_count must be greater than 0 when present".to_owned());
            }
        }
        validate_optional("architecture", &self.architecture)?;
        if let Some(order) = &self.recommended_engine_order {
            if order.len() == 0 {
                return Err("recommended_engine_order must be non-empty when present".to_owned());
            }
            validate_engines(order)?;
        }
        validate_optional("notes", &self.notes)?;
        Ok(())
    }
}

pub fn parse_model_checkpoint_manifest(text: &str) -> (r: Result<ModelCheckpointManifest, String>)
    ensures
        match parsed_json(text@) {
            Err(e) => r matches Err(m) && m@ == "parse model checkpoint: "@ + e,
            Ok(j) => match (r, parsed_manifest(j)) {
                (Ok(m), Ok(v)) => m.view() == v,
                (Err(m), Err(e)) => m@ == e,
                _ => false,
            },
        },
{
    ModelCheckpointManifest::from_json_str(text)
}

} // verus!
