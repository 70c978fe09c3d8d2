use fishy::commit::Commit;
use fishy::diff::{FieldDiff, FieldTypeDiff, SchemaDiff};
use fishy::error::UpdateError;
use fishy::executor::{execute_plan, Progress};
use fishy::operation::{Operation, OperationValue};
use fishy::panda::{PandaFieldType, SchemaFieldView, SchemaId, SchemaView, SystemSchema};
use fishy::plan::{field_operation, schema_operation};
use fishy::schema_file::{FieldType, RelationType};
use p2panda_rs::operation::traits::AsOperation;
use p2panda_rs::operation::OperationValue as PandaValue;
use p2panda_rs::operation::{Operation as PandaOperation, OperationAction};

const HASH: &str = "0020b177ec1bf26dfb3b7010d473e6d44713b29b765b99c6e60ecbfae742de496543";
const OTHER: &str = "002019ed3e9b39cd17f1dbc0f6e31a6e7b9c9ab7e349332e710c946a441b7d308eb5";

fn field(name: &str, previous: Option<SchemaFieldView>, field_type: FieldType) -> FieldDiff {
    FieldDiff {
        name: name.to_string(),
        previous_field_view: previous,
        current_field_type: FieldTypeDiff::Field(field_type),
    }
}

fn schema(name: &str, previous: Option<SchemaView>, fields: Vec<FieldDiff>) -> SchemaDiff {
    SchemaDiff {
        name: name.to_string(),
        previous_schema_view: previous,
        current_description: format!("About {name}"),
        current_fields: fields,
    }
}

fn field_view(id: &str, name: &str, field_type: PandaFieldType) -> SchemaFieldView {
    SchemaFieldView { id: id.to_string(), name: name.to_string(), field_type }
}

fn schema_view(view_id: &str, name: &str, fields: Vec<&str>) -> SchemaView {
    SchemaView {
        view_id: view_id.to_string(),
        name: name.to_string(),
        description: format!("About {name}"),
        fields: fields.into_iter().map(|id| id.to_string()).collect(),
    }
}

/// Runs plans with made up entries and returns the operations with the commits.
fn run(plans: &Vec<SchemaDiff>) -> (Vec<PandaOperation>, Vec<Commit>) {
    let mut operations = Vec::new();
    let mut progress = execute_plan(plans).unwrap();
    loop {
        match progress {
            Progress::Done(commits) => return (operations, commits),
            Progress::Publish(pending) => {
                operations.push(pending.operation().operation.clone());
                let entry = vec![operations.len() as u8, 7];
                progress = pending.commit(&entry).unwrap();
            }
        }
    }
}

fn text_value(operation: &PandaOperation, name: &str) -> String {
    match operation.fields().unwrap().get(name) {
        Some(PandaValue::String(text)) => text.clone(),
        other => panic!("unexpected {other:?}"),
    }
}

fn list_value(operation: &PandaOperation, name: &str) -> Vec<String> {
    match operation.fields().unwrap().get(name) {
        Some(PandaValue::PinnedRelationList(list)) => {
            list.iter().map(|id| id.to_string()).collect()
        }
        other => panic!("unexpected {other:?}"),
    }
}

#[test]
fn new_schema_creates_fields_first() {
    let plans = vec![schema(
        "cafe",
        None,
        vec![field("name", None, FieldType::String), field("open", None, FieldType::Boolean)],
    )];
    let (operations, commits) = run(&plans);
    assert_eq!(operations.len(), 3);
    for operation in &operations {
        assert_eq!(operation.action(), OperationAction::Create);
        assert!(operation.previous().is_none());
    }
    assert_eq!(operations[0].schema_id().to_string(), "schema_field_definition_v1");
    assert_eq!(text_value(&operations[0], "name"), "name");
    assert_eq!(text_value(&operations[0], "type"), "str");
    assert_eq!(text_value(&operations[1], "name"), "open");
    assert_eq!(text_value(&operations[1], "type"), "bool");
    assert_eq!(operations[2].schema_id().to_string(), "schema_definition_v1");
    assert_eq!(text_value(&operations[2], "name"), "cafe");
    assert_eq!(text_value(&operations[2], "description"), "About cafe");
    assert_eq!(
        list_value(&operations[2], "fields"),
        vec![commits[0].entry_hash.clone(), commits[1].entry_hash.clone()]
    );
}

#[test]
fn commits_pass_their_check() {
    let plans = vec![
        schema("cafe", None, vec![field("name", None, FieldType::String)]),
        schema("venue", None, vec![field("size", None, FieldType::Integer)]),
    ];
    let (operations, commits) = run(&plans);
    assert_eq!(commits.len(), 4);
    for (commit, operation) in commits.iter().zip(&operations) {
        let checked = commit.check().unwrap();
        assert_eq!(checked.schema.id(), &operation.schema_id());
    }
    assert_eq!(commits[1].entry, vec![2, 7]);
}

#[test]
fn linked_schema_is_executed_first() {
    let city = schema("city", None, vec![field("name", None, FieldType::String)]);
    let plans = vec![schema(
        "venue",
        None,
        vec![FieldDiff {
            name: "city".to_string(),
            previous_field_view: None,
            current_field_type: FieldTypeDiff::Relation(RelationType::PinnedRelation, city),
        }],
    )];
    let (operations, commits) = run(&plans);
    assert_eq!(operations.len(), 4);
    assert_eq!(text_value(&operations[0], "name"), "name");
    assert_eq!(text_value(&operations[1], "name"), "city");
    assert_eq!(list_value(&operations[1], "fields"), vec![commits[0].entry_hash.clone()]);
    assert_eq!(
        text_value(&operations[2], "type"),
        format!("pinned_relation(city_{})", commits[1].entry_hash)
    );
    assert_eq!(text_value(&operations[3], "name"), "venue");
    assert_eq!(list_value(&operations[3], "fields"), vec![commits[2].entry_hash.clone()]);
}

#[test]
fn unchanged_schema_needs_no_operation() {
    let city_id = SchemaId::Application("city".to_string(), OTHER.to_string());
    let city = schema(
        "city",
        Some(schema_view(OTHER, "city", vec![HASH])),
        vec![field(
            "name",
            Some(field_view(HASH, "name", PandaFieldType::String)),
            FieldType::String,
        )],
    );
    let plans = vec![schema(
        "venue",
        Some(schema_view(HASH, "venue", vec![OTHER])),
        vec![FieldDiff {
            name: "city".to_string(),
            previous_field_view: Some(field_view(
                OTHER,
                "city",
                PandaFieldType::Relation(city_id),
            )),
            current_field_type: FieldTypeDiff::Relation(RelationType::Relation, city),
        }],
    )];
    let (operations, commits) = run(&plans);
    assert!(operations.is_empty());
    assert!(commits.is_empty());
}

#[test]
fn changed_type_updates_field_and_schema() {
    let plans = vec![schema(
        "cafe",
        Some(schema_view(OTHER, "cafe", vec![HASH])),
        vec![field(
            "rating",
            Some(field_view(HASH, "rating", PandaFieldType::Integer)),
            FieldType::Float,
        )],
    )];
    let (operations, commits) = run(&plans);
    assert_eq!(operations.len(), 2);
    assert_eq!(operations[0].action(), OperationAction::Update);
    assert_eq!(operations[0].previous().unwrap().to_string(), HASH);
    assert_eq!(operations[0].fields().unwrap().keys(), vec!["type"]);
    assert_eq!(text_value(&operations[0], "type"), "float");
    assert_eq!(operations[1].action(), OperationAction::Update);
    assert_eq!(operations[1].previous().unwrap().to_string(), OTHER);
    assert_eq!(operations[1].fields().unwrap().keys(), vec!["fields"]);
    assert_eq!(list_value(&operations[1], "fields"), vec![commits[0].entry_hash.clone()]);
}

#[test]
fn changed_description_updates_schema_only() {
    let mut view = schema_view(OTHER, "cafe", vec![HASH]);
    view.description = "Earlier".to_string();
    let plans = vec![schema(
        "cafe",
        Some(view),
        vec![field(
            "name",
            Some(field_view(HASH, "name", PandaFieldType::String)),
            FieldType::String,
        )],
    )];
    let (operations, _) = run(&plans);
    assert_eq!(operations.len(), 1);
    assert_eq!(operations[0].fields().unwrap().keys(), vec!["description"]);
    assert_eq!(text_value(&operations[0], "description"), "About cafe");
}

#[test]
fn second_execution_is_idle() {
    let plans = vec![schema("cafe", None, vec![field("name", None, FieldType::String)])];
    let (_, commits) = run(&plans);
    let field_id = commits[0].entry_hash.as_str();
    let again = vec![schema(
        "cafe",
        Some(schema_view(&commits[1].entry_hash, "cafe", vec![field_id])),
        vec![field(
            "name",
            Some(field_view(field_id, "name", PandaFieldType::String)),
            FieldType::String,
        )],
    )];
    let (operations, commits) = run(&again);
    assert!(operations.is_empty());
    assert!(commits.is_empty());
}

#[test]
fn invalid_previous_id_fails() {
    let plans = vec![schema(
        "cafe",
        None,
        vec![field(
            "name",
            Some(field_view("nothing", "name", PandaFieldType::Boolean)),
            FieldType::String,
        )],
    )];
    assert!(matches!(execute_plan(&plans), Err(UpdateError::InvalidViewId(_))));
}

#[test]
fn decisions_without_previous_version_create() {
    let created = schema_operation(
        &"cafe".to_string(),
        &None,
        &"Places".to_string(),
        &vec![HASH.to_string()],
    );
    match created {
        Some(Operation::Create { schema, fields }) => {
            assert_eq!(schema, SystemSchema::SchemaDefinition(1));
            let names: Vec<&str> = fields.iter().map(|(name, _)| name.as_str()).collect();
            assert_eq!(names, vec!["name", "description", "fields"]);
        }
        other => panic!("unexpected {other:?}"),
    }
    let created = field_operation(&"name".to_string(), &None, &PandaFieldType::Integer);
    match created {
        Some(Operation::Create { schema, fields }) => {
            assert_eq!(schema, SystemSchema::SchemaFieldDefinition(1));
            assert!(matches!(&fields[1].1, OperationValue::String(text) if text == "int"));
        }
        other => panic!("unexpected {other:?}"),
    }
}

#[test]
fn order_of_fields_matters() {
    let view = schema_view(HASH, "cafe", vec![HASH, OTHER]);
    let updated = schema_operation(
        &"cafe".to_string(),
        &Some(view),
        &"About cafe".to_string(),
        &vec![OTHER.to_string(), HASH.to_string()],
    );
    match updated {
        Some(Operation::Update { previous, fields, .. }) => {
            assert_eq!(previous, HASH);
            assert_eq!(fields.len(), 1);
            assert_eq!(fields[0].0, "fields");
        }
        other => panic!("unexpected {other:?}"),
    }
}

#[test]
fn preparing_takes_the_first_of_equal_fields() {
    let operation = Operation::Create {
        schema: SystemSchema::SchemaFieldDefinition(1),
        fields: vec![
            ("name".to_string(), OperationValue::String("first".to_string())),
            ("name".to_string(), OperationValue::String("second".to_string())),
        ],
    };
    let prepared = operation.prepare().unwrap();
    assert_eq!(text_value(&prepared.operation, "name"), "first");
}

#[test]
fn preparing_fails_for_unknown_system_schema() {
    let operation = Operation::Create {
        schema: SystemSchema::SchemaDefinition(9),
        fields: vec![("name".to_string(), OperationValue::String("cafe".to_string()))],
    };
    assert!(matches!(operation.prepare(), Err(UpdateError::UnknownSystemSchema(_))));
}

#[test]
fn preparing_fails_for_invalid_pinned_id() {
    let operation = Operation::Create {
        schema: SystemSchema::SchemaDefinition(1),
        fields: vec![(
            "fields".to_string(),
            OperationValue::PinnedRelationList(vec![HASH.to_string(), "x".to_string()]),
        )],
    };
    assert!(matches!(operation.prepare(), Err(UpdateError::InvalidViewId(_))));
}

fn update_of(previous: String) -> Operation {
    Operation::Update {
        schema: SystemSchema::SchemaFieldDefinition(1),
        previous,
        fields: vec![("type".to_string(), OperationValue::String("int".to_string()))],
    }
}

#[test]
fn valid_view_ids_are_ascending_hashes() {
    let valid = [
        HASH.to_string(),
        HASH.to_uppercase(),
        format!("{OTHER}_{HASH}"),
        format!("00ff{}", &HASH[4..]),
    ];
    for id in valid {
        assert!(update_of(id).prepare().is_ok());
    }
    let invalid = [
        String::new(),
        format!("{HASH}_{OTHER}"),
        format!("{HASH}_{HASH}"),
        format!("{HASH}_"),
        format!("_{HASH}"),
        format!("{HASH}00"),
        HASH[..66].to_string(),
        format!("01{}", &HASH[2..]),
        format!("00zz{}", &HASH[4..]),
        format!("{HASH}-{OTHER}"),
    ];
    for id in invalid {
        assert!(matches!(update_of(id).prepare(), Err(UpdateError::InvalidViewId(_))));
    }
}

#[test]
fn text_forms() {
    let id = || SchemaId::Application("cafe".to_string(), HASH.to_string());
    assert_eq!(id().text(), format!("cafe_{HASH}"));
    assert_eq!(
        SchemaId::System(SystemSchema::SchemaDefinition(1)).text(),
        "schema_definition_v1"
    );
    assert_eq!(
        SchemaId::System(SystemSchema::SchemaFieldDefinition(210)).text(),
        "schema_field_definition_v210"
    );
    assert_eq!(SchemaId::System(SystemSchema::SchemaDefinition(1)).name(), "schema_definition");
    assert_eq!(PandaFieldType::Relation(id()).text(), format!("relation(cafe_{HASH})"));
    assert_eq!(PandaFieldType::RelationList(id()).text(), format!("relation_list(cafe_{HASH})"));
    assert_eq!(
        PandaFieldType::PinnedRelationList(id()).text(),
        format!("pinned_relation_list(cafe_{HASH})")
    );
    let panda_id: p2panda_rs::schema::SchemaId = id().text().parse().unwrap();
    assert_eq!(panda_id.to_string(), id().text());
}
