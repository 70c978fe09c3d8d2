use fishy::commit::{Commit, LockFile};
use fishy::error::UpdateError;
use fishy::operation::{Operation, OperationValue as Value};
use fishy::panda::{PandaFieldType, SchemaId, SystemSchema};
use fishy::previous::{FieldDocument, PendingSchema, PreviousSchemas};
use p2panda_rs::document::{
    DocumentView, DocumentViewFields, DocumentViewId, DocumentViewValue,
};
use p2panda_rs::operation::decode::decode_operation;
use p2panda_rs::operation::encode::encode_operation;
use p2panda_rs::operation::plain::PlainValue;
use p2panda_rs::operation::traits::{Actionable, Schematic};
use p2panda_rs::operation::{
    EncodedOperation, OperationAction, OperationBuilder, OperationId, OperationValue,
    PinnedRelationList,
};
use p2panda_rs::schema::error::FieldTypeError;
use p2panda_rs::schema::system::SystemSchemaError;
use p2panda_rs::schema::SchemaId as PandaSchemaId;

const HASH: &str = "0020b177ec1bf26dfb3b7010d473e6d44713b29b765b99c6e60ecbfae742de496543";
const OTHER: &str = "002019ed3e9b39cd17f1dbc0f6e31a6e7b9c9ab7e349332e710c946a441b7d308eb5";
const THIRD: &str = "0020995d53f460293c5686c42037b72787ed28668ad8b6d18e9d5f02c5d3301161f0";

fn view_id(text: &str) -> DocumentViewId {
    text.parse().unwrap()
}

fn text(value: &str) -> OperationValue {
    OperationValue::String(value.to_string())
}

fn list(ids: &[&str]) -> OperationValue {
    OperationValue::PinnedRelationList(PinnedRelationList::new(
        ids.iter().map(|id| view_id(id)).collect(),
    ))
}

fn document(id: &str, values: Vec<(&str, OperationValue)>) -> DocumentView {
    let operation_id: OperationId = HASH.parse().unwrap();
    let mut fields = DocumentViewFields::new();
    for (name, value) in values {
        fields.insert(name, DocumentViewValue::new(&operation_id, &value));
    }
    DocumentView::new(&view_id(id), &fields)
}

fn schema_document(id: &str, name: &str, fields: &[&str]) -> DocumentView {
    document(
        id,
        vec![("name", text(name)), ("description", text("Places")), ("fields", list(fields))],
    )
}

fn field_document(id: &str, name: &str, field_type: &str) -> DocumentView {
    document(id, vec![("name", text(name)), ("type", text(field_type))])
}

fn encoded_create(schema: &PandaSchemaId) -> Vec<u8> {
    let operation = OperationBuilder::new(schema)
        .fields(&[("name", text("cafe"))])
        .build()
        .unwrap();
    encode_operation(&operation).unwrap().into_bytes()
}

/// Returns the text that an error calls no field type.
fn invalid_type(error: &UpdateError) -> &str {
    match error {
        UpdateError::InvalidFieldDefinition(SystemSchemaError::InvalidFieldType(
            FieldTypeError::InvalidFieldType(text),
        )) => text,
        other => panic!("unexpected {other:?}"),
    }
}

#[test]
fn schema_is_assembled_from_its_documents() {
    let mut previous = PreviousSchemas::new();
    let mut pending = PendingSchema::begin(Some(schema_document(HASH, "cafe", &[OTHER, THIRD])))
        .unwrap()
        .unwrap();
    assert_eq!(pending.next_field().unwrap().to_string(), OTHER);
    pending.add_field(FieldDocument::View(field_document(OTHER, "name", "str"))).unwrap();
    assert_eq!(pending.next_field().unwrap().to_string(), THIRD);
    let linked = format!("relation_list(city_{HASH})");
    pending.add_field(FieldDocument::View(field_document(THIRD, "city", &linked))).unwrap();
    assert!(pending.next_field().is_none());
    pending.assemble(&mut previous).unwrap();

    let schema = previous.get("cafe").unwrap();
    assert_eq!(schema.schema.id.text(), format!("cafe_{HASH}"));
    assert_eq!(schema.schema_view.view_id, HASH);
    assert_eq!(schema.schema_view.name, "cafe");
    assert_eq!(schema.schema_view.description, "Places");
    assert_eq!(schema.schema_view.fields, vec![OTHER, THIRD]);
    assert_eq!(schema.schema_field_views[0].id, OTHER);
    assert_eq!(schema.schema_field_views[0].name, "name");
    assert!(schema.schema_field_views[0].field_type == PandaFieldType::String);
    let city = SchemaId::Application("city".to_string(), HASH.to_string());
    assert!(schema.schema_field_views[1].field_type == PandaFieldType::RelationList(city));
}

#[test]
fn every_field_type_reads_back() {
    let city = || SchemaId::Application("city_x".to_string(), format!("{OTHER}_{HASH}"));
    let types = vec![
        PandaFieldType::Boolean,
        PandaFieldType::Integer,
        PandaFieldType::Float,
        PandaFieldType::String,
        PandaFieldType::Relation(city()),
        PandaFieldType::RelationList(city()),
        PandaFieldType::PinnedRelation(city()),
        PandaFieldType::PinnedRelationList(city()),
    ];
    for field_type in types {
        let mut previous = PreviousSchemas::new();
        let mut pending = PendingSchema::begin(Some(schema_document(HASH, "cafe", &[OTHER])))
            .unwrap()
            .unwrap();
        let field = field_document(OTHER, "some", &field_type.text());
        pending.add_field(FieldDocument::View(field)).unwrap();
        pending.assemble(&mut previous).unwrap();
        let schema = previous.get("cafe").unwrap();
        assert!(schema.schema_field_views[0].field_type == field_type);
    }
}

#[test]
fn deleted_definition_is_skipped() {
    assert!(PendingSchema::begin(None).unwrap().is_none());
}

#[test]
fn later_definition_overrides_earlier_one() {
    let mut previous = PreviousSchemas::new();
    for id in [HASH, THIRD] {
        let mut pending = PendingSchema::begin(Some(schema_document(id, "cafe", &[OTHER])))
            .unwrap()
            .unwrap();
        let field = field_document(OTHER, "name", "str");
        pending.add_field(FieldDocument::View(field)).unwrap();
        pending.assemble(&mut previous).unwrap();
    }
    assert_eq!(previous.len(), 1);
    assert_eq!(previous.get("cafe").unwrap().schema_view.view_id, THIRD);
}

#[test]
fn document_without_schema_fields_is_refused() {
    let missing = document(HASH, vec![("name", text("cafe")), ("description", text("Places"))]);
    assert!(matches!(
        PendingSchema::begin(Some(missing)),
        Err(UpdateError::InvalidSchemaDefinition(_))
    ));
    let wrong = document(
        HASH,
        vec![("name", text("cafe")), ("description", text("Places")), ("fields", text("x"))],
    );
    assert!(matches!(
        PendingSchema::begin(Some(wrong)),
        Err(UpdateError::InvalidSchemaDefinition(_))
    ));
}

#[test]
fn failed_field_lookups_are_reported() {
    let mut pending = PendingSchema::begin(Some(schema_document(HASH, "cafe", &[OTHER])))
        .unwrap()
        .unwrap();
    let error = pending.add_field(FieldDocument::Missing).unwrap_err();
    assert_eq!(
        error.message().unwrap(),
        format!("Missing field definition document {OTHER} for schema {HASH}")
    );
    let error = pending.add_field(FieldDocument::Deleted).unwrap_err();
    assert_eq!(
        error.message().unwrap(),
        "Can not assign a deleted schema field to a schema"
    );
    let unknown = field_document(OTHER, "name", "text");
    let error = pending.add_field(FieldDocument::View(unknown)).unwrap_err();
    assert!(matches!(error, UpdateError::InvalidFieldDefinition(_)));
    assert!(error.message().is_none());
    let wordless = field_document(OTHER, "name", "()");
    let error = pending.add_field(FieldDocument::View(wordless)).unwrap_err();
    assert_eq!(invalid_type(&error), "()");
    let foreign = field_document(OTHER, "name", "\u{fc}");
    let error = pending.add_field(FieldDocument::View(foreign)).unwrap_err();
    assert_eq!(invalid_type(&error), "\u{fc}");
    let error = pending
        .add_field(FieldDocument::View(field_document(OTHER, "name", "text")))
        .unwrap_err();
    assert_eq!(invalid_type(&error), "text");
    let large = document(
        OTHER,
        vec![("name", text("name")), ("type", text("()")), ("more", text("x"))],
    );
    let error = pending.add_field(FieldDocument::View(large)).unwrap_err();
    assert!(matches!(error, UpdateError::InvalidFieldDefinition(_)));
    // A failed lookup changes nothing
    assert_eq!(pending.next_field().unwrap().to_string(), OTHER);
}

#[test]
fn foreign_field_can_not_be_assembled() {
    let mut previous = PreviousSchemas::new();
    let mut pending = PendingSchema::begin(Some(schema_document(HASH, "cafe", &[OTHER])))
        .unwrap()
        .unwrap();
    pending.add_field(FieldDocument::View(field_document(THIRD, "name", "str"))).unwrap();
    let error = pending.assemble(&mut previous).unwrap_err();
    assert!(matches!(error, UpdateError::AssembleSchema(_, _)));
    assert_eq!(
        error.message().unwrap(),
        format!("Could not assemble schema with view id {HASH} from given documents")
    );
    assert!(previous.is_empty());
}

/// Assembles a schema of this name and description with text fields of these names.
fn assemble(name: &str, description: &str, field_names: &[&str]) -> Result<(), UpdateError> {
    let ids = [OTHER, THIRD, HASH];
    let definition = document(
        HASH,
        vec![
            ("name", text(name)),
            ("description", text(description)),
            ("fields", list(&ids[..field_names.len()])),
        ],
    );
    let mut pending = PendingSchema::begin(Some(definition)).unwrap().unwrap();
    for (id, field_name) in ids.iter().zip(field_names) {
        pending.add_field(FieldDocument::View(field_document(id, field_name, "str"))).unwrap();
    }
    let mut previous = PreviousSchemas::new();
    let result = pending.assemble(&mut previous);
    assert_eq!(previous.len(), usize::from(result.is_ok()));
    result
}

#[test]
fn only_valid_schemas_are_assembled() {
    assert!(assemble("cafe", "Places", &["name"]).is_ok());
    assert!(assemble("ca", "", &["n"]).is_ok());
    assert!(assemble(&"c".repeat(64), &"\u{fc}".repeat(256), &[&"n".repeat(64)]).is_ok());
    assert!(assemble("cafe", "Places", &["name_", "n2"]).is_ok());
    // Only neighbours are compared
    assert!(assemble("cafe", "Places", &["name", "city", "name"]).is_ok());

    for name in ["", "c", "2cafe", "_cafe", "cafe_", "ca-fe", "caf\u{e9}", &"c".repeat(65)] {
        assert!(matches!(
            assemble(name, "Places", &["name"]),
            Err(UpdateError::AssembleSchema(_, _))
        ));
    }
    assert!(assemble("cafe", &"p".repeat(257), &["name"]).is_err());
    for name in ["", "2name", "_name", "na-me", "nam\u{e9}", &"n".repeat(65)] {
        assert!(assemble("cafe", "Places", &[name]).is_err());
    }
    assert!(assemble("cafe", "Places", &["name", "name"]).is_err());
    assert!(assemble("cafe", "Places", &[]).is_err());
}

#[test]
fn relation_to_invalid_name_does_not_read_back() {
    let mut pending = PendingSchema::begin(Some(schema_document(HASH, "cafe", &[OTHER])))
        .unwrap()
        .unwrap();
    for linked in [format!("city__{HASH}"), format!("city_{HASH}_{OTHER}"), "city".to_string()] {
        let field = field_document(OTHER, "some", &format!("relation({linked})"));
        assert!(matches!(
            pending.add_field(FieldDocument::View(field)),
            Err(UpdateError::InvalidFieldDefinition(_))
        ));
    }
}

#[test]
fn commit_names_the_hash_of_its_entry() {
    let commit = Commit::new(&vec![1, 2, 3], &vec![4]);
    let hash = p2panda_rs::hash::Hash::new_from_bytes(&[1, 2, 3]);
    assert_eq!(commit.entry_hash, hash.as_str());
    assert_eq!(commit.entry_hash.len(), 68);
    assert!(commit.entry_hash.starts_with("00"));
    assert_eq!(commit.entry, vec![1, 2, 3]);
    assert_eq!(commit.operation, vec![4]);
}

#[test]
fn prepared_bytes_decode_to_the_same_operation() {
    let decode = |operation: &Operation| {
        let bytes = operation.prepare().unwrap().encoded;
        decode_operation(&EncodedOperation::from_bytes(&bytes)).unwrap()
    };
    let previous = format!("{OTHER}_{HASH}");
    let updated = decode(&Operation::Update {
        schema: SystemSchema::SchemaFieldDefinition(1),
        previous: previous.clone(),
        fields: vec![("type".to_string(), Value::String("int".to_string()))],
    });
    assert_eq!(updated.action(), OperationAction::Update);
    assert_eq!(updated.previous().unwrap().to_string(), previous);
    assert_eq!(updated.schema_id().to_string(), "schema_field_definition_v1");

    let fields = updated.fields().unwrap();
    assert_eq!(fields.len(), 1);
    assert_eq!(fields.get("type"), Some(&PlainValue::StringOrRelation("int".to_string())));

    let created = decode(&Operation::Create {
        schema: SystemSchema::SchemaDefinition(1),
        fields: vec![
            ("name".to_string(), Value::String("cafe".to_string())),
            ("fields".to_string(), Value::PinnedRelationList(vec![previous, THIRD.to_string()])),
            ("none".to_string(), Value::PinnedRelationList(vec![])),
        ],
    });
    assert_eq!(created.action(), OperationAction::Create);
    assert!(created.previous().is_none());
    assert_eq!(created.schema_id().to_string(), "schema_definition_v1");
    let fields = created.fields().unwrap();
    assert_eq!(fields.len(), 3);
    assert_eq!(fields.get("name"), Some(&PlainValue::StringOrRelation("cafe".to_string())));
    assert_eq!(
        fields.get("fields"),
        Some(&PlainValue::PinnedRelationList(vec![
            vec![OTHER.to_string(), HASH.to_string()],
            vec![THIRD.to_string()],
        ]))
    );
    assert_eq!(fields.get("none"), Some(&PlainValue::AmbiguousRelation(vec![])));
}

#[test]
fn commit_with_other_hash_is_refused() {
    let mut commit = Commit::new(&vec![1], &encoded_create(&PandaSchemaId::SchemaDefinition(1)));
    assert!(commit.check().is_ok());
    commit.entry_hash = HASH.to_string();
    let error = commit.check().unwrap_err();
    assert_eq!(
        error.message().unwrap(),
        format!("Entry hash {HASH} does not match it's content")
    );
}

#[test]
fn commit_with_broken_operation_is_refused() {
    let commit = Commit::new(&vec![1], &vec![9, 9, 9]);
    assert!(matches!(commit.check(), Err(UpdateError::DecodeOperation(_))));
}

#[test]
fn commit_of_application_schema_is_refused() {
    let id = PandaSchemaId::new(&format!("cafe_{HASH}")).unwrap();
    let commit = Commit::new(&vec![1], &encoded_create(&id));
    let error = commit.check().unwrap_err();
    assert_eq!(
        error.message().unwrap(),
        format!("Detected commit with invalid schema id cafe_{HASH} in lock file")
    );
}

#[test]
fn commit_of_unknown_system_schema_is_refused() {
    let commit = Commit::new(
        &vec![1],
        &encoded_create(&PandaSchemaId::SchemaFieldDefinition(7)),
    );
    assert!(matches!(commit.check(), Err(UpdateError::UnknownSystemSchema(_))));
}

#[test]
fn lock_file_without_commits_is_empty() {
    assert!(LockFile { commits: None }.into_commits().is_empty());
    assert!(LockFile::empty().into_commits().is_empty());
    let file = LockFile { commits: Some(vec![Commit::new(&vec![1], &vec![2])]) };
    assert_eq!(file.into_commits().len(), 1);
}

#[test]
fn messages_of_planning_errors() {
    assert_eq!(UpdateError::EmptySchemaFile.message().unwrap(), "Schema file is empty");
    assert_eq!(
        UpdateError::NoFields("cafe".to_string()).message().unwrap(),
        "Schema cafe does not contain any fields"
    );
    assert_eq!(
        UpdateError::RelationById.message().unwrap(),
        "Relating to schemas via `id` is not supported yet"
    );
    assert_eq!(
        UpdateError::CyclicRelations.message().unwrap(),
        "Cyclic dependency detected between relations"
    );
}
