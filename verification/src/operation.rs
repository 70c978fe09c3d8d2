//! Operations that create or update the documents which define schemas.
use crate::bridge::{
    are_plain_values, build_create, build_update, decoded_operation, encode_operation,
    encoded_operation, get_system, is_known_system_schema, is_valid_operation, is_valid_value,
    is_view_id, list_value, operation_model, operation_value_model, parse_view_id, plain_fields,
    plain_content, schema_id_model, system_schema, text_value, view_id_text,
};
use crate::error::UpdateError;
use crate::panda::{DocumentViewId, SchemaIdModel, SystemSchema};
use crate::schema_file::FieldName;
use p2panda_rs::document::DocumentViewId as PandaDocumentViewId;
use p2panda_rs::operation::error::EncodeOperationError;
use p2panda_rs::operation::{Operation as PandaOperation, OperationValue as PandaOperationValue};
use p2panda_rs::schema::error::SchemaIdError;
use p2panda_rs::schema::Schema as PandaSchema;
use vstd::prelude::*;

verus! {

/// Value of an operation field.
#[derive(Debug)]
pub enum OperationValue {
    String(String),
    PinnedRelationList(Vec<DocumentViewId>),
}

/// Change of one document.
#[derive(Debug)]
pub enum Operation {
    /// Creates a document of this schema with these fields.
    Create { schema: SystemSchema, fields: Vec<(FieldName, OperationValue)> },
    /// Changes these fields in the version `previous` of a document of this schema.
    Update {
        schema: SystemSchema,
        previous: DocumentViewId,
        fields: Vec<(FieldName, OperationValue)>,
    },
}

/// Model of an [`OperationValue`].
pub enum OperationValueModel {
    String(Seq<char>),
    PinnedRelationList(Seq<Seq<char>>),
}

/// Model of the fields of an operation.
pub type OperationFieldsModel = Map<Seq<char>, OperationValueModel>;

/// Model of an [`Operation`].
#[verifier::ext_equal]
pub enum OperationModel {
    Create { schema: SystemSchema, fields: OperationFieldsModel },
    Update { schema: SystemSchema, previous: Seq<char>, fields: OperationFieldsModel },
}

/// What can be told of an operation before it is checked against its schema.
pub struct PlainModel {
    pub schema_id: SchemaIdModel,
    /// The operation, where it creates or updates a document of a system schema and all its values
    /// can be texts or pinned relation lists.
    pub operation: Option<OperationModel>,
}

/// The fields by name, where the first of several fields of one name counts.
pub open spec fn fields_map(fields: Seq<(Seq<char>, OperationValueModel)>) -> OperationFieldsModel
    decreases fields.len(),
{
    if fields.len() == 0 {
        Map::empty()
    } else {
        let front = fields_map(fields.drop_last());
        let (name, value) = fields.last();
        if front.contains_key(name) {
            front
        } else {
            front.insert(name, value)
        }
    }
}

impl DeepView for OperationValue {
    type V = OperationValueModel;

    open spec fn deep_view(&self) -> OperationValueModel {
        match self {
            OperationValue::String(text) => OperationValueModel::String(text@),
            OperationValue::PinnedRelationList(ids) => OperationValueModel::PinnedRelationList(
                ids.deep_view(),
            ),
        }
    }
}

impl DeepView for Operation {
    type V = OperationModel;

    open spec fn deep_view(&self) -> OperationModel {
        match self {
            Operation::Create { schema, fields } => OperationModel::Create {
                schema: *schema,
                fields: fields_map(fields.deep_view()),
            },
            Operation::Update { schema, previous, fields } => OperationModel::Update {
                schema: *schema,
                previous: previous@,
                fields: fields_map(fields.deep_view()),
            },
        }
    }
}

/// The schema of the changed document.
pub open spec fn operation_schema(operation: OperationModel) -> SystemSchema {
    match operation {
        OperationModel::Create { schema, .. } => schema,
        OperationModel::Update { schema, .. } => schema,
    }
}

/// What can be told of this operation before it is checked against its schema.
pub open spec fn plain_model(operation: OperationModel) -> PlainModel {
    PlainModel {
        schema_id: SchemaIdModel::System(operation_schema(operation)),
        operation: Some(operation),
    }
}

/// The changed fields.
pub open spec fn operation_fields(operation: OperationModel) -> OperationFieldsModel {
    match operation {
        OperationModel::Create { fields, .. } => fields,
        OperationModel::Update { fields, .. } => fields,
    }
}

/// The fields as they were given, duplicates included.
pub open spec fn given_fields(operation: Operation) -> Seq<(Seq<char>, OperationValueModel)> {
    match operation {
        Operation::Create { fields, .. } => fields.deep_view(),
        Operation::Update { fields, .. } => fields.deep_view(),
    }
}

/// Every view id that was given is a valid one.
pub open spec fn has_valid_ids(operation: Operation) -> bool {
    &&& operation matches Operation::Update { previous, .. } ==> is_view_id(previous@)
    &&& forall|i: int|
        0 <= i < given_fields(operation).len() ==> is_valid_value(
            (#[trigger] given_fields(operation)[i]).1,
        )
}

/// No field was given twice with different values, so that every given one counts.
pub open spec fn all_fields_count(fields: Seq<(Seq<char>, OperationValueModel)>) -> bool {
    forall|i: int|
        0 <= i < fields.len() ==> fields_map(fields).contains_key((#[trigger] fields[i]).0)
            && fields_map(fields)[fields[i].0] == fields[i].1
}

/// Where every given field counts, the ids in the operation are those that were given.
pub(crate) proof fn lemma_given_ids(operation: Operation)
    requires
        all_fields_count(given_fields(operation)),
    ensures
        has_valid_ids(operation) <==> is_valid_operation(operation.deep_view()),
{
    let fields = given_fields(operation);
    assert(operation_fields(operation.deep_view()) == fields_map(fields));
    if has_valid_ids(operation) {
        lemma_valid_ids(operation);
    }
    if is_valid_operation(operation.deep_view()) {
        assert forall|i: int| 0 <= i < fields.len() implies is_valid_value(
            (#[trigger] fields[i]).1,
        ) by {
            assert(fields_map(fields).contains_key(fields[i].0));
        }
    }
}

/// Every value by name was given.
pub(crate) proof fn lemma_fields_map(fields: Seq<(Seq<char>, OperationValueModel)>, name: Seq<char>)
    requires
        fields_map(fields).contains_key(name),
    ensures
        exists|i: int|
            0 <= i < fields.len() && #[trigger] fields[i] == (name, fields_map(fields)[name]),
    decreases fields.len(),
{
    let front = fields.drop_last();
    if fields.len() > 0 {
        if fields_map(front).contains_key(name) {
            lemma_fields_map(front, name);
            let i = choose|i: int|
                0 <= i < front.len() && #[trigger] front[i] == (name, fields_map(front)[name]);
            assert(fields[i] == (name, fields_map(fields)[name]));
        } else {
            assert(fields[fields.len() - 1] == (name, fields_map(fields)[name]));
        }
    }
}

proof fn lemma_valid_ids(operation: Operation)
    requires
        has_valid_ids(operation),
    ensures
        is_valid_operation(operation.deep_view()),
{
    let fields = given_fields(operation);
    assert(operation_fields(operation.deep_view()) == fields_map(fields));
    assert forall|name: Seq<char>| #[trigger]
        fields_map(fields).contains_key(name) implies is_valid_value(fields_map(fields)[name]) by {
        lemma_fields_map(fields, name);
        let i = choose|i: int|
            0 <= i < fields.len() && #[trigger] fields[i] == (name, fields_map(fields)[name]);
        assert(is_valid_value(fields[i].1));
    }
}

/// Operation which is ready to be published.
#[derive(Debug)]
pub struct PreparedOperation {
    pub operation: PandaOperation,
    /// Schema of the changed document.
    pub schema: &'static PandaSchema,
    /// The operation as bytes.
    pub encoded: Vec<u8>,
}

/// Turns ids of document views from texts into values of p2panda.
fn parse_view_ids(ids: &Vec<DocumentViewId>) -> (result: Result<
    Vec<PandaDocumentViewId>,
    UpdateError,
>)
    ensures
        match result {
            Ok(parsed) => is_valid_value(OperationValueModel::PinnedRelationList(ids.deep_view()))
                && parsed@.map_values(|id: PandaDocumentViewId| view_id_text(id))
                == ids.deep_view(),
            Err(error) => error is InvalidViewId && !is_valid_value(
                OperationValueModel::PinnedRelationList(ids.deep_view()),
            ),
        },
{
    let ghost texts = ids.deep_view();
    let mut parsed: Vec<PandaDocumentViewId> = Vec::new();
    for i in 0..ids.len()
        invariant
            texts == ids.deep_view(),
            parsed@.len() == i,
            forall|k: int| 0 <= k < i ==> is_view_id(#[trigger] texts[k]),
            forall|k: int| 0 <= k < i ==> view_id_text(#[trigger] parsed@[k]) == texts[k],
    {
        match parse_view_id(ids[i].as_str()) {
            Ok(id) => parsed.push(id),
            Err(error) => {
                assert(!is_view_id(texts[i as int]));
                let ghost value = OperationValueModel::PinnedRelationList(texts);
                assert(is_valid_value(value) ==> is_view_id(value->PinnedRelationList_0[i as int]));
                return Err(UpdateError::InvalidViewId(error));
            },
        }
    }
    assert(parsed@.map_values(|id: PandaDocumentViewId| view_id_text(id)) =~= texts);
    Ok(parsed)
}

/// Turns operation fields into values of p2panda.
fn convert_fields(fields: &Vec<(FieldName, OperationValue)>) -> (result: Result<
    Vec<(String, PandaOperationValue)>,
    UpdateError,
>)
    ensures
        match result {
            Ok(converted) => {
                &&& forall|i: int|
                    0 <= i < fields@.len() ==> is_valid_value((#[trigger] fields.deep_view()[i]).1)
                &&& are_plain_values(converted@)
                &&& plain_fields(converted@) == fields.deep_view()
            },
            Err(error) => error is InvalidViewId && exists|i: int|
                0 <= i < fields@.len() && !is_valid_value((#[trigger] fields.deep_view()[i]).1),
        },
{
    let ghost models = fields.deep_view();
    let mut converted: Vec<(String, PandaOperationValue)> = Vec::new();
    for i in 0..fields.len()
        invariant
            models == fields.deep_view(),
            converted@.len() == i,
            forall|k: int| 0 <= k < i ==> is_valid_value((#[trigger] models[k]).1),
            forall|k: int|
                0 <= k < i ==> (#[trigger] converted@[k]).0@ == models[k].0
                    && operation_value_model(converted@[k].1) == Some(models[k].1),
    {
        let (name, value) = &fields[i];
        assert(models[i as int] == (name@, value.deep_view()));
        let value = match value {
            OperationValue::String(text) => text_value(text.clone()),
            OperationValue::PinnedRelationList(ids) => match parse_view_ids(ids) {
                Ok(ids) => list_value(ids),
                Err(error) => {
                    assert(!is_valid_value(models[i as int].1));
                    return Err(error);
                },
            },
        };
        converted.push((name.clone(), value));
    }
    assert(plain_fields(converted@) =~= models);
    Ok(converted)
}

impl Operation {
    /// Builds and encodes the operation.
    ///
    /// Fails where a given text is not the id of a document view, where the system schema does not
    /// exist, or where p2panda can not encode the operation.
    pub fn prepare(&self) -> (result: Result<PreparedOperation, UpdateError>)
        ensures
            match result {
                Ok(prepared) => {
                    &&& has_valid_ids(*self)
                    &&& is_prepared(self.deep_view(), prepared)
                },
                Err(UpdateError::InvalidViewId(_)) => !has_valid_ids(*self),
                Err(UpdateError::UnknownSystemSchema(error)) => {
                    &&& has_valid_ids(*self)
                    &&& !is_known_system_schema(operation_schema(self.deep_view()))
                    &&& system_schema(operation_schema(self.deep_view())) == Err::<
                        &'static PandaSchema,
                        SchemaIdError,
                    >(error)
                },
                Err(UpdateError::EncodeOperation(error)) => {
                    &&& has_valid_ids(*self)
                    &&& is_known_system_schema(operation_schema(self.deep_view()))
                    &&& encoded_operation(self.deep_view()) == Err::<
                        Seq<u8>,
                        EncodeOperationError,
                    >(error)
                },
                Err(_) => false,
            },
    {
        let (schema, built) = match self {
            Operation::Create { schema, fields } => {
                assert(fields.deep_view() == given_fields(*self));
                let fields = match convert_fields(fields) {
                    Ok(fields) => fields,
                    Err(error) => return Err(error),
                };
                (*schema, build_create(*schema, &fields))
            },
            Operation::Update { schema, previous, fields } => {
                let previous = match parse_view_id(previous.as_str()) {
                    Ok(previous) => previous,
                    Err(error) => return Err(UpdateError::InvalidViewId(error)),
                };
                assert(fields.deep_view() == given_fields(*self));
                let fields = match convert_fields(fields) {
                    Ok(fields) => fields,
                    Err(error) => return Err(error),
                };
                (*schema, build_update(*schema, &previous, &fields))
            },
        };
        proof {
            lemma_valid_ids(*self);
        }
        let operation = match built {
            Ok(operation) => operation,
            Err(error) => return Err(UpdateError::BuildOperation(error)),
        };
        let schema = match get_system(schema) {
            Ok(schema) => schema,
            Err(error) => return Err(UpdateError::UnknownSystemSchema(error)),
        };
        match encode_operation(&operation) {
            Ok(encoded) => Ok(PreparedOperation { operation, schema, encoded }),
            Err(error) => Err(UpdateError::EncodeOperation(error)),
        }
    }
}

/// `prepared` holds the operation `operation`, its system schema and its bytes, which can be
/// decoded again to that operation.
pub open spec fn is_prepared(operation: OperationModel, prepared: PreparedOperation) -> bool {
    &&& operation_model(prepared.operation) == Some(operation)
    &&& is_known_system_schema(operation_schema(operation))
    &&& schema_id_model(*prepared.schema) == SchemaIdModel::System(operation_schema(operation))
    &&& is_encoding(operation, prepared.encoded@)
}

/// `bytes` are those of the operation `operation`, and can be decoded again to it.
pub open spec fn is_encoding(operation: OperationModel, bytes: Seq<u8>) -> bool {
    &&& encoded_operation(operation) == Ok::<Seq<u8>, EncodeOperationError>(bytes)
    &&& decoded_operation(bytes) matches Ok(plain)
    &&& plain_content(plain) == plain_model(operation)
}

} // verus!
