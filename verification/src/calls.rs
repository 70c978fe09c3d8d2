//! What single calls of the library give back, in terms of what goes into them.
use crate::bridge::{
    decoded_operation, encoded_operation, entry_hash_text, is_valid_schema_name, is_valid_value,
    is_view_id, operation_model, plain_content, schema_id_model, system_schema,
};
use crate::commit::{CheckedCommit, Commit, LockFile};
use crate::current::{get_current_schemas, is_first_without_fields, CurrentSchema};
use crate::error::UpdateError;
use crate::operation::{
    all_fields_count, fields_map, given_fields, has_valid_ids, lemma_fields_map, operation_fields,
    Operation, OperationFieldsModel, OperationModel, OperationValue, OperationValueModel,
    PreparedOperation,
};
use crate::panda::{
    field_type_text, schema_id_text, DocumentViewId, PandaFieldType, SchemaFieldView, SchemaId,
    SchemaIdModel, SchemaView, SystemSchema,
};
use crate::plan::{field_operation, lemma_field_names, schema_operation};
use crate::schema_file::{
    entries_are_distinct, is_schema_name_valid, is_valid_entry, FieldName, FieldType, RelationId,
    RelationType, SchemaDescription, SchemaField, SchemaFields, SchemaFile, SchemaName,
};
use crate::text::{contains_word_character, decimal, decimal_text, is_word_character};
use vstd::prelude::*;

verus! {

/// Two ids of relations are the same.
pub open spec fn same_relation_id(left: RelationId, right: RelationId) -> bool {
    match (left, right) {
        (RelationId::Name(name), RelationId::Name(other)) => name@ == other@,
        (RelationId::Id(id), RelationId::Id(other)) => id@ == other@,
        _ => false,
    }
}

/// Two fields of a schema file have the same type.
pub open spec fn same_field(left: SchemaField, right: SchemaField) -> bool {
    match (left, right) {
        (
            SchemaField::Field { field_type },
            SchemaField::Field { field_type: other },
        ) => field_type == other,
        (
            SchemaField::Relation { field_type, schema },
            SchemaField::Relation { field_type: other, schema: other_schema },
        ) => field_type == other && same_relation_id(schema.id, other_schema.id),
        _ => false,
    }
}

/// Two lists of fields have the same names and types, in the same order.
pub open spec fn same_fields(left: SchemaFields, right: SchemaFields) -> bool {
    &&& left.entries@.len() == right.entries@.len()
    &&& forall|i: int|
        0 <= i < left.entries@.len() ==> (#[trigger] left.entries@[i]).0@ == right.entries@[i].0@
            && same_field(left.entries@[i].1, right.entries@[i].1)
}

pub(crate) proof fn lemma_same_fields(left: SchemaFields, right: SchemaFields)
    requires
        left.deep_view() == right.deep_view(),
    ensures
        same_fields(left, right),
{
    assert(left.entries.deep_view().len() == right.entries.deep_view().len());
    assert forall|i: int| 0 <= i < left.entries@.len() implies (#[trigger] left.entries@[i]).0@
        == right.entries@[i].0@ && same_field(left.entries@[i].1, right.entries@[i].1) by {
        assert(left.entries.deep_view()[i] == left.entries@[i].deep_view());
        assert(right.entries.deep_view()[i] == right.entries@[i].deep_view());
    }
}

/// Field `j` of the schema links to this name.
pub open spec fn links_to(schema: CurrentSchema, j: int, name: Seq<char>) -> bool {
    &&& 0 <= j < schema.fields.entries@.len()
    &&& schema.fields.entries@[j].1 matches SchemaField::Relation { schema: linked, .. }
    &&& linked.id matches RelationId::Name(to)
    &&& to@ == name
}

/// The current schemas are those of the file: the i-th one has the name, the description and the
/// fields of the i-th entry, character by character. The first schema without fields is refused, by
/// its name.
pub proof fn law_current_schemas_are_those_of_the_file(
    file: &SchemaFile,
    result: Result<Vec<CurrentSchema>, UpdateError>,
)
    requires
        call_ensures(get_current_schemas, (file,), result),
    ensures
        match result {
            Ok(schemas) => {
                &&& schemas@.len() == file.entries@.len()
                &&& forall|i: int|
                    0 <= i < schemas@.len() ==> {
                        &&& (#[trigger] schemas@[i]).name@ == file.entries@[i].0@
                        &&& schemas@[i].description@ == file.entries@[i].1.description@
                        &&& same_fields(schemas@[i].fields, file.entries@[i].1.fields)
                        &&& file.entries@[i].1.fields.entries@.len() > 0
                    }
            },
            Err(error) => exists|k: int|
                {
                    &&& 0 <= k < file.entries@.len()
                    &&& (#[trigger] file.entries@[k]).1.fields.entries@.len() == 0
                    &&& forall|i: int|
                        0 <= i < k ==> (#[trigger] file.entries@[i]).1.fields.entries@.len() > 0
                    &&& error matches UpdateError::NoFields(name) && name@ == file.entries@[k].0@
                },
        },
{
    let model = file.deep_view();
    assert(model.len() == file.entries@.len());
    assert forall|i: int| 0 <= i < model.len() implies #[trigger] model[i]
        == file.entries@[i].deep_view() && model[i].1.fields.len()
        == file.entries@[i].1.fields.entries@.len() by {}
    match result {
        Ok(schemas) => {
            assert(schemas.deep_view().len() == model.len());
            assert forall|i: int| 0 <= i < schemas@.len() implies {
                &&& (#[trigger] schemas@[i]).name@ == file.entries@[i].0@
                &&& schemas@[i].description@ == file.entries@[i].1.description@
                &&& same_fields(schemas@[i].fields, file.entries@[i].1.fields)
                &&& file.entries@[i].1.fields.entries@.len() > 0
            } by {
                assert(schemas.deep_view()[i] == schemas@[i].deep_view());
                assert(model[i] == file.entries@[i].deep_view());
                lemma_same_fields(schemas@[i].fields, file.entries@[i].1.fields);
            }
        },
        Err(error) => {
            let k = choose|k: int| #[trigger]
                is_first_without_fields(model, k) && (error matches
                    UpdateError::NoFields(name) && name@ == model[k].0);
            assert(model[k] == file.entries@[k].deep_view());
            assert forall|i: int| 0 <= i < k implies (
            #[trigger] file.entries@[i]).1.fields.entries@.len() > 0 by {
                assert(model[i] == file.entries@[i].deep_view());
            }
        },
    }
}

/// The value is this text.
pub open spec fn is_text(value: OperationValue, text: Seq<char>) -> bool {
    value matches OperationValue::String(given) && given@ == text
}

/// The value is a pinned relation list of these view ids.
pub open spec fn is_list(value: OperationValue, ids: Seq<DocumentViewId>) -> bool {
    value matches OperationValue::PinnedRelationList(given) && same_texts(given@, ids)
}

/// Two lists hold the same texts, in the same order.
pub open spec fn same_texts(left: Seq<String>, right: Seq<String>) -> bool {
    &&& left.len() == right.len()
    &&& forall|i: int| 0 <= i < left.len() ==> (#[trigger] left[i])@ == right[i]@
}

pub(crate) proof fn lemma_same_texts(left: Vec<String>, right: Vec<String>)
    ensures
        left.deep_view() == right.deep_view() <==> same_texts(left@, right@),
{
    if left.deep_view() == right.deep_view() {
        assert(left.deep_view().len() == right.deep_view().len());
        assert forall|i: int| 0 <= i < left@.len() implies (#[trigger] left@[i])@ == right@[i]@ by {
            assert(left.deep_view()[i] == right.deep_view()[i]);
        }
    }
    if same_texts(left@, right@) {
        assert(left.deep_view() =~= right.deep_view());
    }
}

/// A field of this name is among those that an operation writes.
pub open spec fn writes(fields: Seq<(FieldName, OperationValue)>, name: Seq<char>) -> bool {
    exists|j: int| 0 <= j < fields.len() && (#[trigger] fields[j]).0@ == name
}

/// Text form of a schema id.
pub open spec fn id_text(id: SchemaId) -> Seq<char> {
    match id {
        SchemaId::Application(name, view_id) => if view_id@.len() == 0 {
            name@
        } else {
            name@ + "_"@ + view_id@
        },
        SchemaId::System(SystemSchema::SchemaDefinition(version)) => "schema_definition_v"@
            + number_text(version),
        SchemaId::System(SystemSchema::SchemaFieldDefinition(version)) =>
            "schema_field_definition_v"@ + number_text(version),
    }
}

/// A decimal digit.
pub open spec fn digit_char(value: int) -> char {
    (value + '0' as int) as char
}

/// Up to three decimal digits.
pub open spec fn number_text(value: u8) -> Seq<char> {
    if value < 10 {
        seq![digit_char(value as int)]
    } else if value < 100 {
        seq![digit_char(value as int / 10), digit_char(value as int % 10)]
    } else {
        seq![
            digit_char(value as int / 100),
            digit_char(value as int / 10 % 10),
            digit_char(value as int % 10),
        ]
    }
}

/// Text form of a field type.
pub open spec fn type_text(field_type: PandaFieldType) -> Seq<char> {
    match field_type {
        PandaFieldType::Boolean => "bool"@,
        PandaFieldType::Integer => "int"@,
        PandaFieldType::Float => "float"@,
        PandaFieldType::String => "str"@,
        PandaFieldType::Relation(id) => "relation("@ + id_text(id) + ")"@,
        PandaFieldType::RelationList(id) => "relation_list("@ + id_text(id) + ")"@,
        PandaFieldType::PinnedRelation(id) => "pinned_relation("@ + id_text(id) + ")"@,
        PandaFieldType::PinnedRelationList(id) => "pinned_relation_list("@ + id_text(id) + ")"@,
    }
}

/// Two schema ids are the same.
pub open spec fn same_schema_id(left: SchemaId, right: SchemaId) -> bool {
    match (left, right) {
        (
            SchemaId::Application(name, view_id),
            SchemaId::Application(other, other_id),
        ) => name@ == other@ && view_id@ == other_id@,
        (SchemaId::System(schema), SchemaId::System(other)) => schema == other,
        _ => false,
    }
}

/// Two field types are the same.
pub open spec fn same_type(left: PandaFieldType, right: PandaFieldType) -> bool {
    match (left, right) {
        (PandaFieldType::Boolean, PandaFieldType::Boolean) => true,
        (PandaFieldType::Integer, PandaFieldType::Integer) => true,
        (PandaFieldType::Float, PandaFieldType::Float) => true,
        (PandaFieldType::String, PandaFieldType::String) => true,
        (PandaFieldType::Relation(id), PandaFieldType::Relation(other)) => same_schema_id(id, other),
        (PandaFieldType::RelationList(id), PandaFieldType::RelationList(other)) => same_schema_id(
            id,
            other,
        ),
        (
            PandaFieldType::PinnedRelation(id),
            PandaFieldType::PinnedRelation(other),
        ) => same_schema_id(id, other),
        (
            PandaFieldType::PinnedRelationList(id),
            PandaFieldType::PinnedRelationList(other),
        ) => same_schema_id(id, other),
        _ => false,
    }
}

pub(crate) proof fn lemma_number_text(value: u8)
    ensures
        decimal(value as nat) == number_text(value),
{
    reveal_with_fuel(decimal, 4);
    assert(decimal(value as nat) =~= number_text(value));
}

pub(crate) proof fn lemma_id_text(id: SchemaId)
    ensures
        schema_id_text(id.deep_view()) == id_text(id),
{
    match id {
        SchemaId::System(SystemSchema::SchemaDefinition(version)) => lemma_number_text(version),
        SchemaId::System(SystemSchema::SchemaFieldDefinition(version)) => lemma_number_text(version),
        _ => {},
    }
}

pub(crate) proof fn lemma_type_text(field_type: PandaFieldType)
    ensures
        field_type_text(field_type.deep_view()) == type_text(field_type),
{
    match field_type {
        PandaFieldType::Relation(id) => lemma_id_text(id),
        PandaFieldType::RelationList(id) => lemma_id_text(id),
        PandaFieldType::PinnedRelation(id) => lemma_id_text(id),
        PandaFieldType::PinnedRelationList(id) => lemma_id_text(id),
        _ => {},
    }
}

/// What becomes of a field definition: without a previous version a document with the name and the
/// type is created. Else nothing is done exactly where the type is the same, and where it differs
/// that version is updated, and only its type written.
pub proof fn law_field_with_previous_version_is_updated(
    name: &FieldName,
    previous: &Option<SchemaFieldView>,
    field_type: &PandaFieldType,
    result: Option<Operation>,
)
    requires
        call_ensures(field_operation, (name, previous, field_type), result),
    ensures
        match *previous {
            None => {
                &&& result matches Some(Operation::Create { schema, fields })
                &&& schema == SystemSchema::SchemaFieldDefinition(1)
                &&& writes(fields@, "name"@) && writes(fields@, "type"@)
                &&& forall|j: int|
                    0 <= j < fields@.len() ==> {
                        ||| (#[trigger] fields@[j]).0@ == "name"@ && is_text(fields@[j].1, name@)
                        ||| fields@[j].0@ == "type"@ && is_text(fields@[j].1, type_text(*field_type))
                    }
            },
            Some(view) => {
                &&& result is None <==> same_type(view.field_type, *field_type)
                &&& result is Some ==> {
                    &&& result matches Some(Operation::Update { schema, previous: id, fields })
                    &&& schema == SystemSchema::SchemaFieldDefinition(1)
                    &&& id@ == view.id@
                    &&& writes(fields@, "type"@)
                    &&& forall|j: int|
                        0 <= j < fields@.len() ==> (#[trigger] fields@[j]).0@ == "type"@ && is_text(
                            fields@[j].1,
                            type_text(*field_type),
                        )
                }
            },
        },
{
    lemma_field_names();
    lemma_type_text(*field_type);
    if let Some(operation) = result {
        let map = operation_fields(operation.deep_view());
        lemma_written(operation, written(operation));
        assert(map.contains_key("type"@));
        if *previous is None {
            assert(operation is Create);
            assert(map.contains_key("name"@));
        }
    } else {
        assert(previous.deep_view() is Some);
    }
}

/// The fields that an operation writes.
pub open spec fn written(operation: Operation) -> Seq<(FieldName, OperationValue)> {
    match operation {
        Operation::Create { fields, .. } => fields@,
        Operation::Update { fields, .. } => fields@,
    }
}

/// The given fields are those of the map, and the map has no others.
proof fn lemma_written(operation: Operation, fields: Seq<(FieldName, OperationValue)>)
    requires
        all_fields_count(given_fields(operation)),
        fields == written(operation),
    ensures
        forall|j: int|
            0 <= j < fields.len() ==> operation_fields(operation.deep_view()).contains_key(
                (#[trigger] fields[j]).0@,
            ) && operation_fields(operation.deep_view())[fields[j].0@] == fields[j].1.deep_view(),
        forall|name: Seq<char>| #[trigger]
            operation_fields(operation.deep_view()).contains_key(name) ==> writes(fields, name),
{
    let map = operation_fields(operation.deep_view());
    let given = given_fields(operation);
    assert(given.len() == fields.len());
    assert forall|j: int| 0 <= j < fields.len() implies map.contains_key((#[trigger] fields[j]).0@)
        && map[fields[j].0@] == fields[j].1.deep_view() by {
        assert(given[j] == fields[j].deep_view());
    }
    assert forall|name: Seq<char>| #[trigger] map.contains_key(name) implies writes(fields, name) by {
        lemma_fields_map(given, name);
        let j = choose|j: int| 0 <= j < given.len() && #[trigger] given[j] == (name, map[name]);
        assert(given[j] == fields[j].deep_view());
        assert(fields[j].0@ == name);
    }
}

/// What becomes of a schema definition: without a previous version a document with the name, the
/// description and the fields is created. Else nothing is done exactly where both description and
/// fields are the same, and where one differs that version is updated, and only what differs written.
pub proof fn law_schema_with_previous_version_is_updated(
    name: &SchemaName,
    previous: &Option<SchemaView>,
    description: &SchemaDescription,
    field_ids: &Vec<DocumentViewId>,
    result: Option<Operation>,
)
    requires
        call_ensures(schema_operation, (name, previous, description, field_ids), result),
    ensures
        match *previous {
            None => {
                &&& result matches Some(Operation::Create { schema, fields })
                &&& schema == SystemSchema::SchemaDefinition(1)
                &&& writes(fields@, "name"@) && writes(fields@, "description"@) && writes(
                    fields@,
                    "fields"@,
                )
                &&& forall|j: int|
                    0 <= j < fields@.len() ==> {
                        ||| (#[trigger] fields@[j]).0@ == "name"@ && is_text(fields@[j].1, name@)
                        ||| fields@[j].0@ == "description"@ && is_text(fields@[j].1, description@)
                        ||| fields@[j].0@ == "fields"@ && is_list(fields@[j].1, field_ids@)
                    }
            },
            Some(view) => {
                &&& result is None <==> description@ == view.description@ && same_texts(
                    field_ids@,
                    view.fields@,
                )
                &&& result is Some ==> {
                    &&& result matches Some(Operation::Update { schema, previous: id, fields })
                    &&& schema == SystemSchema::SchemaDefinition(1)
                    &&& id@ == view.view_id@
                    &&& writes(fields@, "description"@) <==> description@ != view.description@
                    &&& writes(fields@, "fields"@) <==> !same_texts(field_ids@, view.fields@)
                    &&& forall|j: int|
                        0 <= j < fields@.len() ==> {
                            ||| (#[trigger] fields@[j]).0@ == "description"@ && is_text(
                                fields@[j].1,
                                description@,
                            )
                            ||| fields@[j].0@ == "fields"@ && is_list(fields@[j].1, field_ids@)
                        }
                }
            },
        },
{
    lemma_field_names();
    if let Some(view) = *previous {
        lemma_same_texts(*field_ids, view.fields);
    }
    if let Some(operation) = result {
        let map = operation_fields(operation.deep_view());
        let fields = written(operation);
        lemma_written(operation, fields);
        if *previous is None {
            assert(operation is Create);
            assert(map.contains_key("name"@));
            assert(map.contains_key("description"@));
            assert(map.contains_key("fields"@));
        } else {
            assert(description@ != (previous->0).description@ ==> map.contains_key("description"@));
            assert(!same_texts(field_ids@, (previous->0).fields@) ==> map.contains_key("fields"@));
        }
        assert forall|j: int|
            0 <= j < fields.len() && (#[trigger] fields[j]).1 is PinnedRelationList
                && fields[j].1->PinnedRelationList_0.deep_view()
                == field_ids.deep_view() implies is_list(fields[j].1, field_ids@) by {
            lemma_same_texts(fields[j].1->PinnedRelationList_0, *field_ids);
        }
    } else {
        assert(previous.deep_view() is Some);
    }
}

/// A schema is made of exactly the given name, description and fields.
pub proof fn law_current_schema_is_made_of_its_parts(
    name: &SchemaName,
    description: &SchemaDescription,
    fields: &SchemaFields,
    schema: CurrentSchema,
)
    requires
        call_ensures(CurrentSchema::new, (name, description, fields), schema),
    ensures
        schema.name@ == name@,
        schema.description@ == description@,
        same_fields(schema.fields, *fields),
{
    lemma_same_fields(schema.fields, *fields);
}

/// A file is refused exactly where it has no entry.
pub proof fn law_only_an_empty_file_is_refused(file: &SchemaFile, result: Result<(), UpdateError>)
    requires
        call_ensures(SchemaFile::check_not_empty, (file,), result),
    ensures
        result is Ok <==> file.entries@.len() > 0,
        result matches Err(error) ==> error is EmptySchemaFile,
{
    assert(file.deep_view().len() == file.entries@.len());
}

/// A name can be that of a schema: 2 to 64 ASCII letters, digits and underscores, of which the first
/// is a letter and the last one not an underscore.
pub open spec fn can_name_a_schema(name: Seq<char>) -> bool {
    &&& 2 <= name.len() && name.len() <= 64
    &&& forall|i: int| 0 <= i < name.len() ==> can_stand_in_a_name(#[trigger] name[i])
    &&& name[0] != '_' && !('0' <= name[0] && name[0] <= '9')
    &&& name[name.len() - 1] != '_'
}

/// An ASCII letter or digit, or an underscore.
pub open spec fn can_stand_in_a_name(c: char) -> bool {
    ||| 'a' <= c && c <= 'z'
    ||| 'A' <= c && c <= 'Z'
    ||| '0' <= c && c <= '9'
    ||| c == '_'
}

/// A file is valid exactly where all its schemas have names that they can have and descriptions of
/// at most 256 characters, no two schemas have the same name, and no two fields of a schema have.
pub proof fn law_valid_files_are_recognised(file: &SchemaFile, valid: bool)
    requires
        call_ensures(SchemaFile::is_valid, (file,), valid),
    ensures
        valid <==> {
            &&& forall|i: int, j: int|
                0 <= i < j < file.entries@.len() ==> (#[trigger] file.entries@[i]).0@ != (
                #[trigger] file.entries@[j]).0@
            &&& forall|i: int|
                0 <= i < file.entries@.len() ==> can_name_a_schema((#[trigger] file.entries@[i]).0@)
                    && file.entries@[i].1.description@.len() <= 256 && have_own_field_names(
                    file.entries@[i].1.fields,
                )
        },
{
    let model = file.deep_view();
    assert(model.len() == file.entries@.len());
    assert forall|i: int| 0 <= i < model.len() implies #[trigger] model[i]
        == file.entries@[i].deep_view() && (is_valid_entry(model[i]) <==> can_name_a_schema(
        file.entries@[i].0@,
    ) && file.entries@[i].1.description@.len() <= 256 && have_own_field_names(
        file.entries@[i].1.fields,
    )) by {
        lemma_own_field_names(file.entries@[i].1.fields);
        lemma_schema_name(file.entries@[i].0@);
    }
    if valid {
        assert forall|i: int, j: int| 0 <= i < j < file.entries@.len() implies (
        #[trigger] file.entries@[i]).0@ != (#[trigger] file.entries@[j]).0@ by {
            assert(model[i].0 != model[j].0);
        }
        assert forall|i: int| 0 <= i < file.entries@.len() implies can_name_a_schema(
            (#[trigger] file.entries@[i]).0@,
        ) && file.entries@[i].1.description@.len() <= 256 && have_own_field_names(
            file.entries@[i].1.fields,
        ) by {
            assert(is_valid_entry(model[i]));
        }
    } else {
        if entries_are_distinct(model) {
            let i = choose|i: int| 0 <= i < model.len() && !is_valid_entry(#[trigger] model[i]);
            assert(file.entries@[i].deep_view() == model[i]);
        } else {
            let (i, j) = choose|i: int, j: int|
                0 <= i < j < model.len() && (#[trigger] model[i]).0 == (#[trigger] model[j]).0;
            assert(file.entries@[i].deep_view() == model[i]);
            assert(file.entries@[j].deep_view() == model[j]);
            assert(file.entries@[i].0@ == file.entries@[j].0@);
        }
    }
}

/// No two fields have the same name.
pub open spec fn have_own_field_names(fields: SchemaFields) -> bool {
    forall|i: int, j: int|
        0 <= i < j < fields.entries@.len() ==> (#[trigger] fields.entries@[i]).0@ != (
        #[trigger] fields.entries@[j]).0@
}

proof fn lemma_own_field_names(fields: SchemaFields)
    ensures
        entries_are_distinct(fields.deep_view()) <==> have_own_field_names(fields),
{
    let model = fields.deep_view();
    assert forall|i: int| 0 <= i < model.len() implies #[trigger] model[i]
        == fields.entries@[i].deep_view() by {}
    if entries_are_distinct(model) {
        assert forall|i: int, j: int| 0 <= i < j < fields.entries@.len() implies (
        #[trigger] fields.entries@[i]).0@ != (#[trigger] fields.entries@[j]).0@ by {
            assert(model[i].0 != model[j].0);
        }
    }
    if have_own_field_names(fields) {
        assert forall|i: int, j: int| 0 <= i < j < model.len() implies (#[trigger] model[i]).0 != (
        #[trigger] model[j]).0 by {
            assert(fields.entries@[i].0@ != fields.entries@[j].0@);
        }
    }
}

proof fn lemma_schema_name(name: Seq<char>)
    ensures
        is_valid_schema_name(name) <==> can_name_a_schema(name),
{
    assert forall|c: char| #[trigger] can_stand_in_a_name(c) <==> is_word_character(c) by {}
    if is_valid_schema_name(name) {
        assert forall|i: int| 0 <= i < name.len() implies can_stand_in_a_name(
            #[trigger] name[i],
        ) by {
            assert(is_word_character(name[i]));
        }
    }
    if can_name_a_schema(name) {
        assert forall|i: int| 0 <= i < name.len() implies is_word_character(#[trigger] name[i]) by {
            assert(can_stand_in_a_name(name[i]));
        }
        assert(can_stand_in_a_name(name[0]));
    }
}

/// A single name is recognised as one that a schema can have.
pub proof fn law_schema_names_are_recognised(name: &str, valid: bool)
    requires
        call_ensures(is_schema_name_valid, (name,), valid),
    ensures
        valid <==> can_name_a_schema(name@),
{
    lemma_schema_name(name@);
}

/// Numbers are written in decimal digits.
pub proof fn law_numbers_are_written_in_decimal_digits(value: u8, text: String)
    requires
        call_ensures(decimal_text, (value,), text),
    ensures
        text@ == number_text(value),
{
    lemma_number_text(value);
}

/// A text has a word character exactly where one of its characters can stand in a name.
pub proof fn law_word_characters_are_found(text: &str, found: bool)
    requires
        call_ensures(contains_word_character, (text,), found),
    ensures
        found <==> exists|i: int| 0 <= i < text@.len() && can_stand_in_a_name(#[trigger] text@[i]),
{
    if found {
        let i = choose|i: int| 0 <= i < text@.len() && is_word_character(#[trigger] text@[i]);
        assert(can_stand_in_a_name(text@[i]));
    }
    if exists|i: int| 0 <= i < text@.len() && can_stand_in_a_name(#[trigger] text@[i]) {
        let i = choose|i: int| 0 <= i < text@.len() && can_stand_in_a_name(#[trigger] text@[i]);
        assert(is_word_character(text@[i]));
    }
}

/// Text forms: a schema id is its name with the version behind it, a field type the word for it,
/// with the id of the linked schema in brackets.
pub proof fn law_ids_and_types_have_their_texts(
    id: &SchemaId,
    name: String,
    text: String,
    field_type: &PandaFieldType,
    type_form: String,
)
    requires
        call_ensures(SchemaId::name, (id,), name),
        call_ensures(SchemaId::text, (id,), text),
        call_ensures(PandaFieldType::text, (field_type,), type_form),
    ensures
        text@ == id_text(*id),
        type_form@ == type_text(*field_type),
        name@ == match *id {
            SchemaId::Application(given, _) => given@,
            SchemaId::System(SystemSchema::SchemaDefinition(_)) => "schema_definition"@,
            SchemaId::System(SystemSchema::SchemaFieldDefinition(_)) => "schema_field_definition"@,
        },
{
    lemma_id_text(*id);
    lemma_type_text(*field_type);
}

/// Every type of the schema file becomes the type of the same kind, and a relation keeps its schema.
pub proof fn law_types_keep_their_kind(
    basic: FieldType,
    made: PandaFieldType,
    kind: RelationType,
    id: SchemaId,
    related: PandaFieldType,
)
    requires
        call_ensures(PandaFieldType::basic, (basic,), made),
        call_ensures(PandaFieldType::relation, (kind, id), related),
    ensures
        basic == FieldType::String ==> made is String,
        basic == FieldType::Boolean ==> made is Boolean,
        basic == FieldType::Float ==> made is Float,
        basic == FieldType::Integer ==> made is Integer,
        kind == RelationType::Relation ==> (related matches PandaFieldType::Relation(to)
            && same_schema_id(to, id)),
        kind == RelationType::RelationList ==> (related matches PandaFieldType::RelationList(to)
            && same_schema_id(to, id)),
        kind == RelationType::PinnedRelation ==> (related matches PandaFieldType::PinnedRelation(to)
            && same_schema_id(to, id)),
        kind == RelationType::PinnedRelationList ==> (
        related matches PandaFieldType::PinnedRelationList(to) && same_schema_id(to, id)),
{
}

/// The message of an error in the words of this library, or none where an error of p2panda is passed
/// on.
pub proof fn law_errors_have_their_messages(error: &UpdateError, message: Option<String>)
    requires
        call_ensures(UpdateError::message, (error,), message),
    ensures
        match *error {
            UpdateError::EmptySchemaFile => says(message, "Schema file is empty"@),
            UpdateError::NoFields(name) => says(
                message,
                "Schema "@ + name@ + " does not contain any fields"@,
            ),
            UpdateError::EntryHashMismatch(hash) => says(
                message,
                "Entry hash "@ + hash@ + " does not match it's content"@,
            ),
            UpdateError::InvalidCommitSchema(id) => says(
                message,
                "Detected commit with invalid schema id "@ + id_text(id) + " in lock file"@,
            ),
            UpdateError::MissingFieldDefinition(id, schema_id) => says(
                message,
                "Missing field definition document "@ + id@ + " for schema "@ + schema_id@,
            ),
            UpdateError::DeletedFieldDefinition => says(
                message,
                "Can not assign a deleted schema field to a schema"@,
            ),
            UpdateError::AssembleSchema(id, _) => says(
                message,
                "Could not assemble schema with view id "@ + id@ + " from given documents"@,
            ),
            UpdateError::RelationById => says(
                message,
                "Relating to schemas via `id` is not supported yet"@,
            ),
            UpdateError::CyclicRelations => says(
                message,
                "Cyclic dependency detected between relations"@,
            ),
            _ => message is None,
        },
{
    if let UpdateError::InvalidCommitSchema(id) = *error {
        lemma_id_text(id);
    }
    if message is None {
        assert(message.deep_view() is None);
    } else {
        assert(message.deep_view() == Some((message->0)@));
    }
}

/// There is a message, and this is its text.
pub open spec fn says(message: Option<String>, text: Seq<char>) -> bool {
    message matches Some(said) && said@ == text
}

/// A commit is made of the entry with its hash, and of the operation.
pub proof fn law_commit_is_made_of_entry_and_operation(
    entry: &Vec<u8>,
    operation: &Vec<u8>,
    commit: Commit,
)
    requires
        call_ensures(Commit::new, (entry, operation), commit),
    ensures
        commit.entry_hash@ == entry_hash_text(entry@),
        commit.entry@ == entry@,
        commit.operation@ == operation@,
{
}

/// A commit is accepted exactly where it names the hash of its entry and its bytes can be decoded to
/// an operation of one of the system schemas that p2panda knows, which is what comes back. Else the
/// first of these conditions that does not hold is the error.
pub proof fn law_only_sound_commits_are_accepted(
    commit: &Commit,
    result: Result<CheckedCommit, UpdateError>,
)
    requires
        call_ensures(Commit::check, (commit,), result),
    ensures
        match result {
            Ok(checked) => {
                &&& commit.entry_hash@ == entry_hash_text(commit.entry@)
                &&& decoded_operation(commit.operation@) matches Ok(operation)
                &&& operation == checked.operation
                &&& is_first_system_schema(plain_content(operation).schema_id)
                &&& schema_id_model(*checked.schema) == plain_content(operation).schema_id
            },
            Err(UpdateError::EntryHashMismatch(hash)) => {
                &&& commit.entry_hash@ != entry_hash_text(commit.entry@)
                &&& hash@ == commit.entry_hash@
            },
            Err(UpdateError::DecodeOperation(error)) => {
                &&& commit.entry_hash@ == entry_hash_text(commit.entry@)
                &&& decoded_operation(commit.operation@) matches Err(reason)
                &&& reason == error
            },
            Err(UpdateError::InvalidCommitSchema(id)) => {
                &&& commit.entry_hash@ == entry_hash_text(commit.entry@)
                &&& decoded_operation(commit.operation@) matches Ok(operation)
                &&& plain_content(operation).schema_id matches SchemaIdModel::Application(
                    name,
                    view_id,
                )
                &&& id matches SchemaId::Application(id_name, id_view_id)
                &&& id_name@ == name && id_view_id@ == view_id
            },
            Err(UpdateError::UnknownSystemSchema(error)) => {
                &&& commit.entry_hash@ == entry_hash_text(commit.entry@)
                &&& decoded_operation(commit.operation@) matches Ok(operation)
                &&& plain_content(operation).schema_id matches SchemaIdModel::System(schema)
                &&& !is_first_system_schema(plain_content(operation).schema_id)
                &&& system_schema(schema) matches Err(reason) && reason == error
            },
            Err(_) => false,
        },
{
}

/// The id is that of a system schema in its first version.
pub open spec fn is_first_system_schema(id: SchemaIdModel) -> bool {
    ||| id == SchemaIdModel::System(SystemSchema::SchemaDefinition(1))
    ||| id == SchemaIdModel::System(SystemSchema::SchemaFieldDefinition(1))
}

/// The commits of a lock file are all those that it defines, in their order.
pub proof fn law_lock_file_keeps_its_commits(file: LockFile, commits: Vec<Commit>)
    requires
        call_ensures(LockFile::into_commits, (file,), commits),
    ensures
        match file.commits {
            Some(given) => {
                &&& commits@.len() == given@.len()
                &&& forall|k: int|
                    0 <= k < commits@.len() ==> {
                        &&& (#[trigger] commits@[k]).entry_hash@ == given@[k].entry_hash@
                        &&& commits@[k].entry@ == given@[k].entry@
                        &&& commits@[k].operation@ == given@[k].operation@
                    }
            },
            None => commits@.len() == 0,
        },
{
    assert(commits.deep_view().len() == commits@.len());
    if let Some(given) = file.commits {
        assert(given.deep_view().len() == given@.len());
        assert forall|k: int| 0 <= k < commits@.len() implies {
            &&& (#[trigger] commits@[k]).entry_hash@ == given@[k].entry_hash@
            &&& commits@[k].entry@ == given@[k].entry@
            &&& commits@[k].operation@ == given@[k].operation@
        } by {
            assert(commits.deep_view()[k] == commits@[k].deep_view());
            assert(given.deep_view()[k] == given@[k].deep_view());
        }
    }
}

/// A new lock file has no commits.
pub proof fn law_new_lock_file_has_no_commits(file: LockFile)
    requires
        call_ensures(LockFile::empty, (), file),
    ensures
        file.commits matches Some(commits) && commits@.len() == 0,
{
}

/// A view id in the operation is not a valid one.
pub open spec fn has_invalid_id(operation: Operation) -> bool {
    ||| operation matches Operation::Update { previous, .. } && !is_view_id(previous@)
    ||| exists|j: int|
        0 <= j < written(operation).len() && pins_invalid_id((#[trigger] written(operation)[j]).1)
}

/// One of the view ids in a pinned relation list is not a valid one.
pub open spec fn pins_invalid_id(value: OperationValue) -> bool {
    value matches OperationValue::PinnedRelationList(ids) && exists|i: int|
        0 <= i < ids@.len() && !is_view_id((#[trigger] ids@[i])@)
}

/// The system schema that an operation belongs to.
pub open spec fn schema_of(operation: Operation) -> SystemSchema {
    match operation {
        Operation::Create { schema, .. } => schema,
        Operation::Update { schema, .. } => schema,
    }
}

/// An operation is prepared exactly where all its view ids are valid, its system schema is known and
/// p2panda can encode it. What is prepared holds that very operation, its schema and its bytes, which
/// can be decoded to it.
pub proof fn law_prepared_operation_is_the_given_one(
    operation: &Operation,
    result: Result<PreparedOperation, UpdateError>,
)
    requires
        call_ensures(Operation::prepare, (operation,), result),
    ensures
        match result {
            Ok(prepared) => {
                &&& !has_invalid_id(*operation)
                &&& is_first_system_schema(SchemaIdModel::System(schema_of(*operation)))
                &&& operation_model(prepared.operation) == Some(operation.deep_view())
                &&& schema_id_model(*prepared.schema) == SchemaIdModel::System(
                    schema_of(*operation),
                )
                &&& encoded_operation(operation.deep_view()) matches Ok(bytes)
                &&& bytes == prepared.encoded@
                &&& decoded_operation(prepared.encoded@) matches Ok(plain)
                &&& plain_content(plain).operation == Some(operation.deep_view())
                &&& plain_content(plain).schema_id == SchemaIdModel::System(schema_of(*operation))
            },
            Err(UpdateError::InvalidViewId(_)) => has_invalid_id(*operation),
            Err(UpdateError::UnknownSystemSchema(_)) => !has_invalid_id(*operation)
                && !is_first_system_schema(SchemaIdModel::System(schema_of(*operation))),
            Err(UpdateError::EncodeOperation(error)) => {
                &&& !has_invalid_id(*operation)
                &&& is_first_system_schema(SchemaIdModel::System(schema_of(*operation)))
                &&& encoded_operation(operation.deep_view()) matches Err(reason) && reason == error
            },
            Err(_) => false,
        },
{
    lemma_invalid_id(*operation);
}

proof fn lemma_invalid_id(operation: Operation)
    ensures
        has_valid_ids(operation) <==> !has_invalid_id(operation),
{
    let fields = written(operation);
    let given = given_fields(operation);
    assert(given.len() == fields.len());
    assert forall|j: int| 0 <= j < fields.len() implies (is_valid_value(
        (#[trigger] given[j]).1,
    ) <==> !pins_invalid_id(fields[j].1)) by {
        assert(given[j] == fields[j].deep_view());
        if let OperationValue::PinnedRelationList(ids) = fields[j].1 {
            let texts = ids.deep_view();
            assert(given[j].1 == OperationValueModel::PinnedRelationList(texts));
            if pins_invalid_id(fields[j].1) {
                let i = choose|i: int| 0 <= i < ids@.len() && !is_view_id((#[trigger] ids@[i])@);
                assert(texts[i] == ids@[i]@);
                let value = given[j].1;
                assert(is_valid_value(value) ==> is_view_id(value->PinnedRelationList_0[i]));
            } else {
                assert forall|i: int| 0 <= i < texts.len() implies is_view_id(
                    #[trigger] texts[i],
                ) by {
                    assert(texts[i] == ids@[i]@);
                }
            }
        }
    }
    if has_valid_ids(operation) {
        if exists|j: int| 0 <= j < fields.len() && pins_invalid_id((#[trigger] fields[j]).1) {
            let j = choose|j: int| 0 <= j < fields.len() && pins_invalid_id((#[trigger] fields[j]).1);
            assert(is_valid_value(given[j].1));
        }
    }
    if !has_invalid_id(operation) {
        assert forall|j: int| 0 <= j < given.len() implies is_valid_value((#[trigger] given[j]).1) by {
            assert(!pins_invalid_id(fields[j].1));
        }
    }
}

/// The model of an operation shows all that it is made of: whether it creates or updates, its schema,
/// the version that it updates, and of each field that it writes the first value.
pub proof fn law_operation_model_shows_everything(operation: Operation)
    ensures
        match (operation, operation.deep_view()) {
            (
                Operation::Create { schema, fields },
                OperationModel::Create { schema: model_schema, fields: map },
            ) => schema == model_schema && is_map_of(map, fields@),
            (
                Operation::Update { schema, previous, fields },
                OperationModel::Update {
                    schema: model_schema,
                    previous: model_previous,
                    fields: map,
                },
            ) => schema == model_schema && model_previous == previous@ && is_map_of(map, fields@),
            _ => false,
        },
{
    let given = given_fields(operation);
    let map = operation_fields(operation.deep_view());
    let fields = written(operation);
    assert(given.len() == fields.len());
    assert(map == fields_map(given));
    lemma_first_value(given);
    assert forall|j: int| 0 <= j < fields.len() && is_first_of_name(fields, j) implies {
        &&& map.contains_key((#[trigger] fields[j]).0@)
        &&& is_value(map[fields[j].0@], fields[j].1)
    } by {
        assert(given[j] == fields[j].deep_view());
        assert forall|i: int| 0 <= i < j implies (#[trigger] given[i]).0 != given[j].0 by {
            assert(given[i] == fields[i].deep_view());
            assert(fields[i].0@ != fields[j].0@);
        }
        if let OperationValue::PinnedRelationList(ids) = fields[j].1 {
            assert(ids.deep_view() =~= ids@.map_values(|id: String| id@));
        }
    }
    assert forall|name: Seq<char>| #[trigger] map.contains_key(name) implies writes(fields, name) by {
        lemma_fields_map(given, name);
        let j = choose|j: int| 0 <= j < given.len() && #[trigger] given[j] == (name, map[name]);
        assert(given[j] == fields[j].deep_view());
        assert(fields[j].0@ == name);
    }
}

/// The value in a model is this one.
pub open spec fn is_value(model: OperationValueModel, value: OperationValue) -> bool {
    match value {
        OperationValue::String(text) => model == OperationValueModel::String(text@),
        OperationValue::PinnedRelationList(ids) => model == OperationValueModel::PinnedRelationList(
            ids@.map_values(|id: String| id@),
        ),
    }
}

/// No field in front of this one has its name.
pub open spec fn is_first_of_name(fields: Seq<(FieldName, OperationValue)>, j: int) -> bool {
    forall|i: int| 0 <= i < j ==> (#[trigger] fields[i]).0@ != fields[j].0@
}

/// The map holds the first value of each name.
pub open spec fn is_map_of(
    map: OperationFieldsModel,
    fields: Seq<(FieldName, OperationValue)>,
) -> bool {
    &&& forall|j: int|
        0 <= j < fields.len() && is_first_of_name(fields, j) ==> {
            &&& map.contains_key((#[trigger] fields[j]).0@)
            &&& is_value(map[fields[j].0@], fields[j].1)
        }
    &&& forall|name: Seq<char>| #[trigger] map.contains_key(name) ==> writes(fields, name)
}

proof fn lemma_first_value(given: Seq<(Seq<char>, OperationValueModel)>)
    ensures
        forall|j: int|
            0 <= j < given.len() && (forall|i: int|
                0 <= i < j ==> (#[trigger] given[i]).0 != given[j].0) ==> {
                &&& fields_map(given).contains_key((#[trigger] given[j]).0)
                &&& fields_map(given)[given[j].0] == given[j].1
            },
    decreases given.len(),
{
    if given.len() > 0 {
        let front = given.drop_last();
        lemma_first_value(front);
        assert forall|j: int|
            0 <= j < given.len() && (forall|i: int|
                0 <= i < j ==> (#[trigger] given[i]).0 != given[j].0) implies {
            &&& fields_map(given).contains_key((#[trigger] given[j]).0)
            &&& fields_map(given)[given[j].0] == given[j].1
        } by {
            if j < front.len() {
                assert(front[j] == given[j]);
                assert forall|i: int| 0 <= i < j implies (#[trigger] front[i]).0 != front[j].0 by {
                    assert(front[i] == given[i]);
                }
            } else if fields_map(front).contains_key(given[j].0) {
                lemma_fields_map(front, given[j].0);
                let i = choose|i: int|
                    0 <= i < front.len() && #[trigger] front[i] == (
                        given[j].0,
                        fields_map(front)[given[j].0],
                    );
                assert(given[i].0 == given[j].0);
            }
        }
    }
}

/// Whatever is given, these calls can be made.
pub proof fn law_calls_can_be_made(
    file: SchemaFile,
    commit: Commit,
    lock_file: LockFile,
    operation: Operation,
    error: UpdateError,
    entry: Vec<u8>,
)
    ensures
        call_requires(get_current_schemas, (&file,)),
        call_requires(SchemaFile::check_not_empty, (&file,)),
        call_requires(SchemaFile::is_valid, (&file,)),
        call_requires(Commit::check, (&commit,)),
        call_requires(Commit::new, (&entry, &entry)),
        call_requires(LockFile::into_commits, (lock_file,)),
        call_requires(LockFile::empty, ()),
        call_requires(Operation::prepare, (&operation,)),
        call_requires(UpdateError::message, (&error,)),
{
}

/// Whatever changes, it can be asked what becomes of a definition.
pub proof fn law_every_change_can_be_decided(
    name: String,
    description: String,
    previous_field: Option<SchemaFieldView>,
    field_type: PandaFieldType,
    previous_schema: Option<SchemaView>,
    field_ids: Vec<DocumentViewId>,
)
    ensures
        call_requires(field_operation, (&name, &previous_field, &field_type)),
        call_requires(schema_operation, (&name, &previous_schema, &description, &field_ids)),
{
}

} // verus!
