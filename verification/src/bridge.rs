//! Calls into p2panda, with what the library relies on about them.
use crate::operation::{
    fields_map, operation_fields, plain_model, OperationFieldsModel, OperationModel,
    OperationValueModel, PlainModel,
};
use crate::panda::{
    basic_type, field_type_text, related_schema, relation_type, PandaFieldTypeModel,
    SchemaFieldViewModel, SchemaId, SchemaIdModel, SchemaView, SchemaViewModel, SystemSchema,
};
use crate::schema_file::{FieldType, RelationType};
use crate::text::{has_word_character, is_hex_digit, is_letter, is_word_character, text_lt};
use p2panda_rs::document::error::DocumentViewIdError;
use p2panda_rs::document::{
    DocumentView as PandaDocumentView, DocumentViewId as PandaDocumentViewId,
};
use p2panda_rs::entry::traits::AsEncodedEntry;
use p2panda_rs::entry::EncodedEntry;
use p2panda_rs::operation::error::{
    DecodeOperationError, EncodeOperationError, OperationBuilderError,
};
use p2panda_rs::operation::plain::PlainOperation;
use p2panda_rs::operation::traits::Schematic;
use p2panda_rs::operation::{
    EncodedOperation, Operation as PandaOperation, OperationAction, OperationBuilder,
    OperationValue as PandaOperationValue,
};
use p2panda_rs::schema::error::{FieldTypeError, SchemaError, SchemaIdError};
use p2panda_rs::schema::system::{
    SchemaFieldView as PandaSchemaFieldView, SchemaView as PandaSchemaView, SystemSchemaError,
};
use p2panda_rs::schema::{
    FieldType as OutsideFieldType, Schema as PandaSchema, SchemaId as PandaSchemaId,
};
use vstd::prelude::*;

verus! {

#[verifier::external_type_specification]
#[verifier::external_body]
pub struct ExDocumentViewId(PandaDocumentViewId);

#[verifier::external_type_specification]
#[verifier::external_body]
pub struct ExDocumentViewIdError(p2panda_rs::document::error::DocumentViewIdError);

#[verifier::external_type_specification]
#[verifier::external_body]
pub struct ExOperationValue(PandaOperationValue);

#[verifier::external_type_specification]
#[verifier::external_body]
pub struct ExOperation(PandaOperation);

#[verifier::external_type_specification]
#[verifier::external_body]
pub struct ExOperationBuilderError(p2panda_rs::operation::error::OperationBuilderError);

#[verifier::external_type_specification]
#[verifier::external_body]
pub struct ExEncodeOperationError(p2panda_rs::operation::error::EncodeOperationError);

#[verifier::external_type_specification]
#[verifier::external_body]
pub struct ExPlainOperation(p2panda_rs::operation::plain::PlainOperation);

#[verifier::external_type_specification]
#[verifier::external_body]
pub struct ExDecodeOperationError(p2panda_rs::operation::error::DecodeOperationError);

#[verifier::external_type_specification]
#[verifier::external_body]
pub struct ExSchema(PandaSchema);

#[verifier::external_type_specification]
#[verifier::external_body]
pub struct ExSchemaIdError(p2panda_rs::schema::error::SchemaIdError);

#[verifier::external_type_specification]
#[verifier::external_body]
pub struct ExSchemaId(PandaSchemaId);

#[verifier::external_type_specification]
#[verifier::external_body]
pub struct ExFieldType(OutsideFieldType);

#[verifier::external_type_specification]
#[verifier::external_body]
pub struct ExDocumentView(PandaDocumentView);

#[verifier::external_type_specification]
#[verifier::external_body]
pub struct ExSchemaView(PandaSchemaView);

#[verifier::external_type_specification]
#[verifier::external_body]
pub struct ExSchemaFieldView(PandaSchemaFieldView);

#[verifier::external_type_specification]
#[verifier::external_body]
pub struct ExSystemSchemaError(SystemSchemaError);

#[verifier::external_type_specification]
#[verifier::external_body]
pub struct ExSchemaError(SchemaError);

/// The text is the hash of an entry: 34 bytes in hexadecimal digits, of which the first is zero. It
/// is the id of the operation in that entry too.
pub open spec fn is_entry_hash(text: Seq<char>) -> bool {
    &&& text.len() == 68
    &&& text[0] == '0' && text[1] == '0'
    &&& forall|i: int| 0 <= i < text.len() ==> is_hex_digit(#[trigger] text[i])
}

/// The part of a view id that stands for its operation `index`.
pub open spec fn operation_id_at(text: Seq<char>, index: int) -> Seq<char> {
    text.subrange(69 * index, 69 * index + 68)
}

/// The text is a valid view id: the ids of one or more operations, each one smaller than the next,
/// joined by `_`.
pub open spec fn is_view_id(text: Seq<char>) -> bool {
    &&& text.len() % 69 == 68
    &&& forall|i: int|
        0 <= i <= text.len() / 69 ==> is_entry_hash(#[trigger] operation_id_at(text, i))
    &&& forall|i: int|
        0 <= i < text.len() / 69 ==> text[69 * i + 68] == '_' && text_lt(
            #[trigger] operation_id_at(text, i),
            operation_id_at(text, i + 1),
        )
}

/// The hash of an entry is the view id of a document with this one operation as its latest.
pub(crate) proof fn lemma_hash_is_view_id(text: Seq<char>)
    requires
        is_entry_hash(text),
    ensures
        is_view_id(text),
{
    assert(operation_id_at(text, 0) =~= text);
}

/// What `DocumentViewId::from_str` makes of a text.
pub uninterp spec fn parsed_view_id(text: Seq<char>) -> Result<
    PandaDocumentViewId,
    DocumentViewIdError,
>;

/// Text form of a `DocumentViewId`: the ids of its operations, joined by `_`.
pub uninterp spec fn view_id_text(id: PandaDocumentViewId) -> Seq<char>;

/// `DocumentViewId::from_str` reads a view id that has the given text as its text form, or fails
/// where the text is not a valid one.
#[verifier::external_body]
pub(crate) fn parse_view_id(text: &str) -> (result: Result<
    PandaDocumentViewId,
    DocumentViewIdError,
>)
    ensures
        result == parsed_view_id(text@),
        result is Ok <==> is_view_id(text@),
        result matches Ok(id) ==> view_id_text(id) == text@,
{
    text.parse()
}

/// What an `OperationValue` holds, where it is a text or a pinned relation list.
pub uninterp spec fn operation_value_model(value: PandaOperationValue) -> Option<
    OperationValueModel,
>;

/// `OperationValue::from` a `String` holds that text.
#[verifier::external_body]
pub(crate) fn text_value(text: String) -> (value: PandaOperationValue)
    ensures
        operation_value_model(value) == Some(OperationValueModel::String(text@)),
{
    text.into()
}

/// `OperationValue::from` a list of view ids is a pinned relation list of these ids, in their order.
#[verifier::external_body]
pub(crate) fn list_value(ids: Vec<PandaDocumentViewId>) -> (value: PandaOperationValue)
    ensures
        operation_value_model(value) == Some(
            OperationValueModel::PinnedRelationList(
                ids@.map_values(|id: PandaDocumentViewId| view_id_text(id)),
            ),
        ),
{
    ids.into()
}

/// What an `Operation` holds, where it creates or updates a document of a system schema and all its
/// values are texts or pinned relation lists.
pub uninterp spec fn operation_model(operation: PandaOperation) -> Option<OperationModel>;

/// The values are all texts or pinned relation lists.
pub open spec fn are_plain_values(fields: Seq<(String, PandaOperationValue)>) -> bool {
    forall|i: int| 0 <= i < fields.len() ==> operation_value_model((#[trigger] fields[i]).1) is Some
}

/// What the fields hold.
pub open spec fn plain_fields(fields: Seq<(String, PandaOperationValue)>) -> Seq<
    (Seq<char>, OperationValueModel),
> {
    fields.map_values(
        |field: (String, PandaOperationValue)| (field.0@, operation_value_model(field.1)->0),
    )
}

/// The operation that creates a document of this schema with these fields.
pub open spec fn create_model(schema: SystemSchema, fields: OperationFieldsModel) -> OperationModel {
    OperationModel::Create { schema, fields }
}

/// The operation that changes these fields in the version `previous` of a document.
pub open spec fn update_model(
    schema: SystemSchema,
    previous: Seq<char>,
    fields: OperationFieldsModel,
) -> OperationModel {
    OperationModel::Update { schema, previous, fields }
}

/// `OperationBuilder` builds a CREATE operation with these fields. It does not fail, since fields
/// are given and no previous operations. Of several fields of one name it takes the first.
#[verifier::external_body]
pub(crate) fn build_create(
    schema: SystemSchema,
    fields: &Vec<(String, PandaOperationValue)>,
) -> (result: Result<PandaOperation, OperationBuilderError>)
    requires
        are_plain_values(fields@),
    ensures
        result is Ok,
        operation_model(result->Ok_0) == Some(
            create_model(schema, fields_map(plain_fields(fields@))),
        ),
{
    let schema_id = match schema {
        SystemSchema::SchemaDefinition(version) => PandaSchemaId::SchemaDefinition(version),
        SystemSchema::SchemaFieldDefinition(version) => PandaSchemaId::SchemaFieldDefinition(version),
    };
    OperationBuilder::new(&schema_id).action(OperationAction::Create).fields(fields).build()
}

/// `OperationBuilder` builds an UPDATE operation with these fields. It does not fail, since fields
/// and previous operations are given. Of several fields of one name it takes the first.
#[verifier::external_body]
pub(crate) fn build_update(
    schema: SystemSchema,
    previous: &PandaDocumentViewId,
    fields: &Vec<(String, PandaOperationValue)>,
) -> (result: Result<PandaOperation, OperationBuilderError>)
    requires
        are_plain_values(fields@),
    ensures
        result is Ok,
        operation_model(result->Ok_0) == Some(
            update_model(schema, view_id_text(*previous), fields_map(plain_fields(fields@))),
        ),
{
    let schema_id = match schema {
        SystemSchema::SchemaDefinition(version) => PandaSchemaId::SchemaDefinition(version),
        SystemSchema::SchemaFieldDefinition(version) => PandaSchemaId::SchemaFieldDefinition(version),
    };
    OperationBuilder::new(&schema_id)
        .action(OperationAction::Update)
        .previous(previous)
        .fields(fields)
        .build()
}

/// Id of a `Schema`.
pub uninterp spec fn schema_id_model(schema: PandaSchema) -> SchemaIdModel;

/// What `Schema::get_system` returns.
pub uninterp spec fn system_schema(schema: SystemSchema) -> Result<
    &'static PandaSchema,
    SchemaIdError,
>;

/// The system schemas that p2panda knows: both in version 1.
pub open spec fn is_known_system_schema(schema: SystemSchema) -> bool {
    schema == SystemSchema::SchemaDefinition(1) || schema == SystemSchema::SchemaFieldDefinition(1)
}

/// `Schema::get_system` returns the system schema of this id where p2panda knows it, else fails.
#[verifier::external_body]
pub(crate) fn get_system(schema: SystemSchema) -> (result: Result<
    &'static PandaSchema,
    SchemaIdError,
>)
    ensures
        result == system_schema(schema),
        result is Ok <==> is_known_system_schema(schema),
        result matches Ok(found) ==> schema_id_model(*found) == SchemaIdModel::System(schema),
{
    PandaSchema::get_system(match schema {
        SystemSchema::SchemaDefinition(version) => PandaSchemaId::SchemaDefinition(version),
        SystemSchema::SchemaFieldDefinition(version) => PandaSchemaId::SchemaFieldDefinition(version),
    })
}

/// What `decode_operation` makes of the bytes of an operation.
pub uninterp spec fn decoded_operation(operation: Seq<u8>) -> Result<
    PlainOperation,
    DecodeOperationError,
>;

/// What a `PlainOperation` holds: its schema id and, where it creates or updates a document of a
/// system schema, the operation as far as its values can be texts or pinned relation lists. A list
/// without any items can be one of the latter.
pub uninterp spec fn plain_content(operation: PlainOperation) -> PlainModel;

/// Schema id of a `PlainOperation`.
pub open spec fn plain_schema_id(operation: PlainOperation) -> SchemaIdModel {
    plain_content(operation).schema_id
}

/// `decode_operation` reads an operation from bytes, or fails.
#[verifier::external_body]
pub(crate) fn decode_operation(operation: &Vec<u8>) -> (result: Result<
    PlainOperation,
    DecodeOperationError,
>)
    ensures
        result == decoded_operation(operation@),
{
    p2panda_rs::operation::decode::decode_operation(&EncodedOperation::from_bytes(operation))
}

/// `PlainOperation::schema_id` returns the schema id of the operation.
#[verifier::external_body]
pub(crate) fn plain_operation_schema_id(operation: &PlainOperation) -> (id: &PandaSchemaId)
    ensures
        schema_id_value(*id) == plain_content(*operation).schema_id,
{
    operation.schema_id()
}

/// What a `SchemaId` holds.
pub uninterp spec fn schema_id_value(id: PandaSchemaId) -> SchemaIdModel;

/// A `SchemaId` is a system schema with a version, or an application schema with a name and a view
/// id.
#[verifier::external_body]
pub(crate) fn read_schema_id(id: &PandaSchemaId) -> (plain: SchemaId)
    ensures
        plain.deep_view() == schema_id_value(*id),
{
    match id {
        PandaSchemaId::Application(name, view_id) => {
            SchemaId::Application(name.to_string(), view_id.to_string())
        },
        PandaSchemaId::SchemaDefinition(version) => {
            SchemaId::System(SystemSchema::SchemaDefinition(*version))
        },
        PandaSchemaId::SchemaFieldDefinition(version) => {
            SchemaId::System(SystemSchema::SchemaFieldDefinition(*version))
        },
    }
}

/// Hash of the bytes of an entry, in its text form.
pub uninterp spec fn entry_hash_text(entry: Seq<u8>) -> Seq<char>;

/// `EncodedEntry::hash` returns the hash of the bytes of an entry, as the hexadecimal digits of 34
/// bytes, of which the first is zero.
#[verifier::external_body]
pub(crate) fn hash_entry(entry: &Vec<u8>) -> (text: String)
    ensures
        text@ == entry_hash_text(entry@),
        is_entry_hash(text@),
{
    EncodedEntry::from_bytes(entry).hash().as_str().to_string()
}

/// Every view id in the value is valid.
pub open spec fn is_valid_value(value: OperationValueModel) -> bool {
    value matches OperationValueModel::PinnedRelationList(ids) ==> forall|i: int|
        0 <= i < ids.len() ==> is_view_id(#[trigger] ids[i])
}

/// Every view id in the operation is valid.
pub open spec fn is_valid_operation(operation: OperationModel) -> bool {
    &&& operation matches OperationModel::Update { previous, .. } ==> is_view_id(previous)
    &&& forall|name: Seq<char>| #[trigger]
        operation_fields(operation).contains_key(name) ==> is_valid_value(
            operation_fields(operation)[name],
        )
}

/// What `encode_operation` makes of an operation.
pub uninterp spec fn encoded_operation(operation: OperationModel) -> Result<
    Seq<u8>,
    EncodeOperationError,
>;

/// `encode_operation` returns the bytes of an operation, or fails. Where all the view ids in it are
/// valid, these bytes can be decoded again and hold the same operation: its action, previous
/// operations, schema and fields.
#[verifier::external_body]
pub(crate) fn encode_operation(operation: &PandaOperation) -> (result: Result<
    Vec<u8>,
    EncodeOperationError,
>)
    requires
        operation_model(*operation) is Some,
    ensures
        encoded_operation(operation_model(*operation)->0) == match result {
            Ok(bytes) => Ok(bytes@),
            Err(error) => Err(error),
        },
        is_valid_operation(operation_model(*operation)->0) ==> (result matches Ok(bytes) ==> (
        decoded_operation(bytes@) matches Ok(plain) && plain_content(plain) == plain_model(
            operation_model(*operation)->0,
        ))),
{
    let encoded = p2panda_rs::operation::encode::encode_operation(operation)?;
    Ok(encoded.into_bytes())
}

/// Model of the fields of a document.
pub type DocumentFieldsModel = Map<Seq<char>, Option<OperationValueModel>>;

/// Id of a `DocumentView`, in its text form.
pub uninterp spec fn document_id(view: PandaDocumentView) -> Seq<char>;

/// Fields of a `DocumentView` by name, each with its value where that is a text or a pinned
/// relation list.
pub uninterp spec fn document_fields(view: PandaDocumentView) -> DocumentFieldsModel;

/// The text in the field `name`, where there is one.
pub open spec fn text_field(fields: DocumentFieldsModel, name: Seq<char>) -> Option<Seq<char>> {
    if fields.contains_key(name) {
        match fields[name] {
            Some(OperationValueModel::String(text)) => Some(text),
            _ => None,
        }
    } else {
        None
    }
}

/// The pinned relation list in the field `name`, where there is one.
pub open spec fn list_field(fields: DocumentFieldsModel, name: Seq<char>) -> Option<
    Seq<Seq<char>>,
> {
    if fields.contains_key(name) {
        match fields[name] {
            Some(OperationValueModel::PinnedRelationList(ids)) => Some(ids),
            _ => None,
        }
    } else {
        None
    }
}

/// `DocumentView::len` returns the number of fields.
#[verifier::external_body]
pub(crate) fn count_fields(view: &PandaDocumentView) -> (count: usize)
    ensures
        count == document_fields(*view).len(),
{
    view.len()
}

/// `DocumentView::get` finds the value of a field, here as far as it is a text.
#[verifier::external_body]
pub(crate) fn read_text_field(view: &PandaDocumentView, name: &str) -> (text: Option<String>)
    ensures
        text.deep_view() == text_field(document_fields(*view), name@),
{
    match view.get(name)?.value() {
        PandaOperationValue::String(text) => Some(text.clone()),
        _ => None,
    }
}

/// What a `SchemaView` holds.
pub uninterp spec fn schema_view_model(view: PandaSchemaView) -> SchemaViewModel;

/// What `SchemaView::try_from` makes of a document view.
pub uninterp spec fn converted_schema_view(view: PandaDocumentView) -> Result<
    PandaSchemaView,
    SystemSchemaError,
>;

/// The schema that a document with this id and these fields defines: it has the texts `name` and
/// `description`, the pinned relation list `fields`, and nothing else.
pub open spec fn schema_definition(id: Seq<char>, fields: DocumentFieldsModel) -> Option<
    SchemaViewModel,
> {
    match (
        text_field(fields, "name"@),
        text_field(fields, "description"@),
        list_field(fields, "fields"@),
    ) {
        (Some(name), Some(description), Some(ids)) => if fields.len() == 3 {
            Some(SchemaViewModel { view_id: id, name, description, fields: ids })
        } else {
            None
        },
        _ => None,
    }
}

/// `SchemaView::try_from` reads the definition of a schema from a document view, or fails where the
/// view does not have exactly the fields of one.
#[verifier::external_body]
pub(crate) fn convert_schema_view(view: PandaDocumentView) -> (result: Result<
    PandaSchemaView,
    SystemSchemaError,
>)
    ensures
        result == converted_schema_view(view),
        match result {
            Ok(schema) => schema_definition(document_id(view), document_fields(view)) == Some(
                schema_view_model(schema),
            ),
            Err(_) => schema_definition(document_id(view), document_fields(view)) is None,
        },
{
    view.try_into()
}

/// The getters of `SchemaView` return what it holds.
#[verifier::external_body]
pub(crate) fn read_schema_view(view: &PandaSchemaView) -> (plain: SchemaView)
    ensures
        plain.deep_view() == schema_view_model(*view),
{
    SchemaView {
        view_id: view.view_id().to_string(),
        name: view.name().to_string(),
        description: view.description().to_string(),
        fields: view.fields().iter().map(|id| id.to_string()).collect(),
    }
}

/// `PinnedRelationList::len` returns the number of fields that a schema pins.
#[verifier::external_body]
pub(crate) fn count_pinned(view: &PandaSchemaView) -> (count: usize)
    ensures
        count == schema_view_model(*view).fields.len(),
{
    view.fields().len()
}

/// `PinnedRelationList::document_view_ids` returns the fields that a schema pins, in their order.
#[verifier::external_body]
pub(crate) fn pinned_field(view: &PandaSchemaView, index: usize) -> (id: PandaDocumentViewId)
    requires
        index < schema_view_model(*view).fields.len(),
    ensures
        view_id_text(id) == schema_view_model(*view).fields[index as int],
{
    view.fields().document_view_ids()[index].clone()
}

/// What a `SchemaFieldView` holds.
pub uninterp spec fn field_view_model(view: PandaSchemaFieldView) -> SchemaFieldViewModel;

/// The field type that `FieldType::from_str` reads from a text which is not the text form of a
/// readable type, where it does not fail.
pub uninterp spec fn parsed_other_type(text: Seq<char>) -> Option<PandaFieldTypeModel>;

/// A name that p2panda accepts for a schema: 2 to 64 ASCII letters, digits and underscores. The
/// first one is a letter and the last one not an underscore.
pub open spec fn is_valid_schema_name(name: Seq<char>) -> bool {
    &&& 2 <= name.len() <= 64
    &&& forall|i: int| 0 <= i < name.len() ==> is_word_character(#[trigger] name[i])
    &&& is_letter(name[0])
    &&& name[name.len() - 1] != '_'
}

/// A basic type, or a relation to an application schema with a valid name and a valid view id.
pub open spec fn is_readable_type(field_type: PandaFieldTypeModel) -> bool {
    match related_schema(field_type) {
        None => true,
        Some(SchemaIdModel::Application(name, view_id)) => is_valid_schema_name(name)
            && is_view_id(view_id),
        Some(SchemaIdModel::System(_)) => false,
    }
}

/// The text form of a readable type.
pub open spec fn is_readable_text(text: Seq<char>) -> bool {
    exists|field_type: PandaFieldTypeModel|
        is_readable_type(field_type) && #[trigger] field_type_text(field_type) == text
}

/// The field type of a text: the readable type where it is the text form of one, else `other`.
pub open spec fn type_of(text: Seq<char>, other: Option<PandaFieldTypeModel>) -> Option<
    PandaFieldTypeModel,
> {
    if is_readable_text(text) {
        Some(
            choose|field_type: PandaFieldTypeModel|
                is_readable_type(field_type) && #[trigger] field_type_text(field_type) == text,
        )
    } else {
        other
    }
}

/// The type in the text `type` of a field definition.
pub open spec fn type_text(fields: DocumentFieldsModel) -> Seq<char> {
    text_field(fields, "type"@)->0
}

/// What `SchemaFieldView::try_from` makes of a document view.
pub uninterp spec fn converted_field_view(view: PandaDocumentView) -> Result<
    PandaSchemaFieldView,
    SystemSchemaError,
>;

/// The document has the texts `name` and `type`, and nothing else.
pub open spec fn has_field_texts(fields: DocumentFieldsModel) -> bool {
    &&& fields.len() == 2
    &&& text_field(fields, "name"@) is Some
    &&& text_field(fields, "type"@) is Some
}

/// `SchemaFieldView::try_from` reads the definition of a field from a document view, or fails where
/// the view does not have exactly the fields of one.
///
/// It reads the type with `FieldType::from_str`, which panics on a text without any word character,
/// and reads back the text form of a basic type or of a relation to a valid application schema.
#[verifier::external_body]
pub(crate) fn convert_field_view(view: PandaDocumentView) -> (result: Result<
    PandaSchemaFieldView,
    SystemSchemaError,
>)
    requires
        has_field_texts(document_fields(view)) ==> has_word_character(
            type_text(document_fields(view)),
        ),
    ensures
        result == converted_field_view(view),
        result is Ok <==> (has_field_texts(document_fields(view)) && type_of(
            type_text(document_fields(view)),
            parsed_other_type(type_text(document_fields(view))),
        ) is Some),
        result is Ok ==> {
            &&& field_view_model(result->Ok_0).id == document_id(view)
            &&& text_field(document_fields(view), "name"@) == Some(
                field_view_model(result->Ok_0).name,
            )
            &&& type_of(
                type_text(document_fields(view)),
                parsed_other_type(type_text(document_fields(view))),
            ) == Some(field_view_model(result->Ok_0).field_type)
        },
{
    view.try_into()
}

/// The `SystemSchemaError` for a field definition with this invalid type.
pub uninterp spec fn invalid_type_error(text: Seq<char>) -> SystemSchemaError;

/// `SystemSchemaError::from` a `FieldTypeError::InvalidFieldType` is the error that
/// `SchemaFieldView::try_from` passes on where a text is no type.
#[verifier::external_body]
pub(crate) fn invalid_type(text: String) -> (error: SystemSchemaError)
    ensures
        error == invalid_type_error(text@),
{
    FieldTypeError::InvalidFieldType(text).into()
}

/// What a `FieldType` is.
pub uninterp spec fn field_type_value(field_type: OutsideFieldType) -> PandaFieldTypeModel;

/// The getters of `SchemaFieldView` return what it holds: id, name and type.
#[verifier::external_body]
pub(crate) fn field_view_parts(view: &PandaSchemaFieldView) -> (parts: (
    String,
    String,
    &OutsideFieldType,
))
    ensures
        parts.0@ == field_view_model(*view).id,
        parts.1@ == field_view_model(*view).name,
        field_type_value(*parts.2) == field_view_model(*view).field_type,
{
    (view.id().to_string(), view.name().to_string(), view.field_type())
}

/// Field type, taken apart.
pub(crate) enum FieldTypeParts<'a> {
    Basic(FieldType),
    Relation(RelationType, &'a PandaSchemaId),
}

/// A `FieldType` is a basic type, or a kind of relation with the id of a schema.
#[verifier::external_body]
pub(crate) fn field_type_parts(field_type: &OutsideFieldType) -> (parts: FieldTypeParts<'_>)
    ensures
        field_type_value(*field_type) == match parts {
            FieldTypeParts::Basic(basic) => basic_type(basic),
            FieldTypeParts::Relation(kind, id) => relation_type(kind, schema_id_value(*id)),
        },
{
    match field_type {
        OutsideFieldType::Boolean => FieldTypeParts::Basic(FieldType::Boolean),
        OutsideFieldType::Integer => FieldTypeParts::Basic(FieldType::Integer),
        OutsideFieldType::Float => FieldTypeParts::Basic(FieldType::Float),
        OutsideFieldType::String => FieldTypeParts::Basic(FieldType::String),
        OutsideFieldType::Relation(id) => FieldTypeParts::Relation(RelationType::Relation, id),
        OutsideFieldType::RelationList(id) => FieldTypeParts::Relation(RelationType::RelationList, id),
        OutsideFieldType::PinnedRelation(id) => FieldTypeParts::Relation(RelationType::PinnedRelation, id),
        OutsideFieldType::PinnedRelationList(id) => FieldTypeParts::Relation(RelationType::PinnedRelationList, id),
    }
}

/// What `Schema::from_views` makes of the definitions of a schema and of its fields.
pub uninterp spec fn assembled_schema(
    view: PandaSchemaView,
    fields: Seq<PandaSchemaFieldView>,
) -> Result<PandaSchema, SchemaError>;

/// Every field that the schema pins is among the field views, and there are no more of them.
pub open spec fn are_fields_of(
    view: SchemaViewModel,
    fields: Seq<SchemaFieldViewModel>,
) -> bool {
    &&& fields.len() <= view.fields.len()
    &&& forall|i: int|
        0 <= i < view.fields.len() ==> exists|j: int|
            0 <= j < fields.len() && (#[trigger] fields[j]).id == #[trigger] view.fields[i]
}

/// A name that p2panda accepts for a field: 1 to 64 ASCII letters, digits and underscores, of which
/// the first one is a letter.
pub open spec fn is_valid_field_name(name: Seq<char>) -> bool {
    &&& 1 <= name.len() <= 64
    &&& forall|i: int| 0 <= i < name.len() ==> is_word_character(#[trigger] name[i])
    &&& is_letter(name[0])
}

/// The fields of a schema can have these names: all are valid, none is the same as the next one, and
/// there are 1 to 1024 different ones.
pub open spec fn are_valid_field_names(names: Seq<Seq<char>>) -> bool {
    &&& forall|i: int| 0 <= i < names.len() ==> is_valid_field_name(#[trigger] names[i])
    &&& forall|i: int, j: int|
        0 <= i < names.len() && j == i + 1 && j < names.len() ==> #[trigger] names[i]
            != #[trigger] names[j]
    &&& 1 <= names.to_set().len() <= 1024
}

/// A schema can have this name, this description and fields of these names. A description has at
/// most 256 characters.
pub open spec fn is_valid_schema(
    name: Seq<char>,
    description: Seq<char>,
    field_names: Seq<Seq<char>>,
) -> bool {
    &&& is_valid_schema_name(name)
    &&& description.len() <= 256
    &&& are_valid_field_names(field_names)
}

/// The names in field definitions.
pub open spec fn names_of(fields: Seq<SchemaFieldViewModel>) -> Seq<Seq<char>> {
    fields.map_values(|field: SchemaFieldViewModel| field.name)
}

/// A schema can be assembled from its definition and those of its fields.
pub open spec fn can_be_assembled(
    view: SchemaViewModel,
    fields: Seq<SchemaFieldViewModel>,
) -> bool {
    are_fields_of(view, fields) && is_valid_schema(view.name, view.description, names_of(fields))
}

/// `Schema::from_views` assembles the schema, or fails where the field views are not those of the
/// schema or where name, description or fields are invalid. Its id holds the name and the view id.
#[verifier::external_body]
pub(crate) fn assemble_schema(view: PandaSchemaView, fields: Vec<PandaSchemaFieldView>) -> (result:
    Result<PandaSchema, SchemaError>)
    ensures
        result == assembled_schema(view, fields@),
        result matches Ok(schema) ==> schema_id_model(schema) == SchemaIdModel::Application(
            schema_view_model(view).name,
            schema_view_model(view).view_id,
        ),
        result is Ok <==> can_be_assembled(
            schema_view_model(view),
            fields@.map_values(|field: PandaSchemaFieldView| field_view_model(field)),
        ),
{
    PandaSchema::from_views(view, fields)
}

/// `Schema::id` returns the id of a schema.
#[verifier::external_body]
pub(crate) fn schema_id(schema: &PandaSchema) -> (id: &PandaSchemaId)
    ensures
        schema_id_value(*id) == schema_id_model(*schema),
{
    schema.id()
}

} // verus!
