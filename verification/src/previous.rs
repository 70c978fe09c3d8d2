//! Schemas the user already committed.
use crate::bridge::{
    assemble_schema, assembled_schema, can_be_assembled, convert_field_view, convert_schema_view,
    converted_field_view, converted_schema_view, count_fields, count_pinned, document_fields,
    document_id, field_type_parts, field_view_model, field_view_parts, has_field_texts,
    invalid_type, invalid_type_error, is_readable_type, parsed_other_type, pinned_field,
    read_schema_id, read_schema_view, read_text_field, schema_definition, schema_id,
    schema_view_model, text_field, type_of, type_text, view_id_text, DocumentFieldsModel,
    FieldTypeParts,
};
use crate::error::UpdateError;
use crate::operation::OperationValueModel;
use crate::panda::{
    field_type_text, related_schema, PandaFieldType, PandaFieldTypeModel, Schema, SchemaFieldView,
    SchemaFieldViewModel, SchemaIdModel, SchemaView, SchemaViewModel,
};
use crate::plan::lemma_field_names;
use crate::text::{contains_word_character, has_word_character, is_word_character};
use p2panda_rs::document::{
    DocumentView as PandaDocumentView, DocumentViewId as PandaDocumentViewId,
};
use p2panda_rs::schema::error::SchemaError;
use p2panda_rs::schema::Schema as PandaSchema;
use p2panda_rs::schema::system::{
    SchemaFieldView as PandaSchemaFieldView, SchemaView as PandaSchemaView, SystemSchemaError,
};
use vstd::hash_map::StringHashMap;
use vstd::prelude::*;

verus! {

/// Materialized schema the user already committed.
#[derive(Debug)]
pub struct PreviousSchema {
    pub schema: Schema,
    pub schema_view: SchemaView,
    pub schema_field_views: Vec<SchemaFieldView>,
}

/// Materialized schemas the user already committed, by name.
pub type PreviousSchemas = StringHashMap<PreviousSchema>;

/// Model of a [`PreviousSchema`].
pub struct PreviousSchemaModel {
    pub schema: SchemaIdModel,
    pub schema_view: SchemaViewModel,
    pub schema_field_views: Seq<SchemaFieldViewModel>,
}

impl DeepView for PreviousSchema {
    type V = PreviousSchemaModel;

    open spec fn deep_view(&self) -> PreviousSchemaModel {
        PreviousSchemaModel {
            schema: self.schema.deep_view(),
            schema_view: self.schema_view.deep_view(),
            schema_field_views: self.schema_field_views.deep_view(),
        }
    }
}

/// Model of [`PreviousSchemas`].
pub open spec fn previous_model(schemas: Map<Seq<char>, PreviousSchema>) -> Map<
    Seq<char>,
    PreviousSchemaModel,
> {
    schemas.map_values(|schema: PreviousSchema| schema.deep_view())
}

/// Every schema is kept under its own name.
pub open spec fn is_keyed_by_name(schemas: Map<Seq<char>, PreviousSchemaModel>) -> bool {
    forall|name: Seq<char>| #[trigger]
        schemas.contains_key(name) ==> schemas[name].schema_view.name == name
}

/// Copies field views.
fn copy_field_views(views: &Vec<SchemaFieldView>) -> (copy: Vec<SchemaFieldView>)
    ensures
        copy.deep_view() == views.deep_view(),
{
    let mut copy: Vec<SchemaFieldView> = Vec::new();
    for i in 0..views.len()
        invariant
            copy.deep_view() == views.deep_view().take(i as int),
    {
        let ghost before = copy.deep_view();
        copy.push(views[i].clone());
        assert(copy.deep_view() =~= before.push(views.deep_view()[i as int]));
        assert(copy.deep_view() =~= views.deep_view().take(i + 1));
    }
    assert(views.deep_view().take(views@.len() as int) =~= views.deep_view());
    copy
}

impl PreviousSchema {
    /// Makes a schema from copies of its parts.
    pub fn new(
        schema: &Schema,
        schema_view: &SchemaView,
        schema_field_views: &Vec<SchemaFieldView>,
    ) -> (previous: Self)
        ensures
            previous.deep_view() == (PreviousSchemaModel {
                schema: schema.deep_view(),
                schema_view: schema_view.deep_view(),
                schema_field_views: schema_field_views.deep_view(),
            }),
    {
        PreviousSchema {
            schema: schema.clone(),
            schema_view: schema_view.clone(),
            schema_field_views: copy_field_views(schema_field_views),
        }
    }
}

/// The type of a field definition does not hold any ASCII letter or digit, nor an underscore, so that
/// it is not a type in any case.
pub open spec fn has_wordless_type(fields: DocumentFieldsModel) -> bool {
    has_field_texts(fields) && !has_word_character(type_text(fields))
}

/// `error` is the reason why the document does not define a field.
pub open spec fn is_field_error(view: PandaDocumentView, error: SystemSchemaError) -> bool {
    if has_wordless_type(document_fields(view)) {
        error == invalid_type_error(type_text(document_fields(view)))
    } else {
        converted_field_view(view) == Err::<PandaSchemaFieldView, SystemSchemaError>(error)
    }
}

/// The field type that is read from a text.
pub open spec fn read_type(text: Seq<char>) -> Option<PandaFieldTypeModel> {
    if has_word_character(text) {
        type_of(text, parsed_other_type(text))
    } else {
        None
    }
}

/// The field that a document with this id and these fields defines: it has the texts `name` and
/// `type`, of which the second is the text form of a field type, and nothing else.
pub open spec fn field_definition(id: Seq<char>, fields: DocumentFieldsModel) -> Option<
    SchemaFieldViewModel,
> {
    if has_field_texts(fields) {
        match read_type(type_text(fields)) {
            Some(field_type) => Some(
                SchemaFieldViewModel { id, name: text_field(fields, "name"@)->0, field_type },
            ),
            None => None,
        }
    } else {
        None
    }
}

/// Fields of the document that defines a schema.
pub open spec fn schema_document(view: SchemaViewModel) -> DocumentFieldsModel {
    DocumentFieldsModel::empty().insert(
        "name"@,
        Some(OperationValueModel::String(view.name)),
    ).insert("description"@, Some(OperationValueModel::String(view.description))).insert(
        "fields"@,
        Some(OperationValueModel::PinnedRelationList(view.fields)),
    )
}

/// Fields of the document that defines a field.
pub open spec fn field_document(view: SchemaFieldViewModel) -> DocumentFieldsModel {
    DocumentFieldsModel::empty().insert(
        "name"@,
        Some(OperationValueModel::String(view.name)),
    ).insert("type"@, Some(OperationValueModel::String(field_type_text(view.field_type))))
}

/// The text of a field type starts with a letter.
proof fn lemma_type_has_word_character(field_type: PandaFieldTypeModel)
    ensures
        has_word_character(field_type_text(field_type)),
{
    reveal_strlit("bool");
    reveal_strlit("int");
    reveal_strlit("float");
    reveal_strlit("str");
    reveal_strlit("relation(");
    reveal_strlit("relation_list(");
    reveal_strlit("pinned_relation(");
    reveal_strlit("pinned_relation_list(");
    assert(is_word_character(field_type_text(field_type)[0]));
}

/// Length of the text in front of the schema id in the text form of a relation.
spec fn prefix_length(field_type: PandaFieldTypeModel) -> int {
    match field_type {
        PandaFieldTypeModel::Relation(_) => 9,
        PandaFieldTypeModel::RelationList(_) => 14,
        PandaFieldTypeModel::PinnedRelation(_) => 16,
        _ => 21,
    }
}

/// What the text form of a relation is made of.
proof fn lemma_relation_text(field_type: PandaFieldTypeModel)
    requires
        related_schema(field_type) matches Some(SchemaIdModel::Application(_, view_id))
            && view_id.len() > 0,
    ensures
        ({
            let text = field_type_text(field_type);
            let name = related_schema(field_type)->0->Application_0;
            let view_id = related_schema(field_type)->0->Application_1;
            let start = prefix_length(field_type);
            &&& text.len() == start + name.len() + view_id.len() + 2
            &&& text.subrange(start, start + name.len()) == name
            &&& text.subrange(start + name.len() + 1, text.len() - 1) == view_id
            &&& (text[0] == 'r') == (field_type is Relation || field_type is RelationList)
            &&& field_type is Relation ==> text[8] == '('
            &&& field_type is RelationList ==> text[8] == '_'
            &&& field_type is PinnedRelation ==> text[15] == '('
            &&& field_type is PinnedRelationList ==> text[15] == '_'
        }),
{
    reveal_strlit("relation(");
    reveal_strlit("relation_list(");
    reveal_strlit("pinned_relation(");
    reveal_strlit("pinned_relation_list(");
    reveal_strlit("_");
    reveal_strlit(")");
    let text = field_type_text(field_type);
    let name = related_schema(field_type)->0->Application_0;
    let view_id = related_schema(field_type)->0->Application_1;
    let start = prefix_length(field_type);
    assert(text.subrange(start, start + name.len()) =~= name);
    assert(text.subrange(start + name.len() + 1, text.len() - 1) =~= view_id);
}

/// Two names in front of view ids have the same length where the texts have: the length of a view id
/// leaves that of a name open only in steps which are larger than a name.
proof fn lemma_name_length(left: int, right: int, left_id: int, right_id: int)
    requires
        0 <= left <= 64,
        0 <= right <= 64,
        left_id % 69 == 68,
        right_id % 69 == 68,
        left + left_id == right + right_id,
    ensures
        left == right,
{
}

/// Two readable relations with the same text form are the same.
proof fn lemma_relation_text_is_unique(left: PandaFieldTypeModel, right: PandaFieldTypeModel)
    requires
        related_schema(left) is Some && is_readable_type(left),
        related_schema(right) is Some && is_readable_type(right),
        field_type_text(left) == field_type_text(right),
    ensures
        left == right,
{
    lemma_relation_text(left);
    lemma_relation_text(right);
    assert(prefix_length(left) == prefix_length(right));
    let left_id = related_schema(left)->0;
    let right_id = related_schema(right)->0;
    lemma_name_length(
        left_id->Application_0.len() as int,
        right_id->Application_0.len() as int,
        left_id->Application_1.len() as int,
        right_id->Application_1.len() as int,
    );
    assert(left_id == right_id);
}

/// Two readable types with the same text form are the same.
proof fn lemma_readable_text_is_unique(left: PandaFieldTypeModel, right: PandaFieldTypeModel)
    requires
        is_readable_type(left),
        is_readable_type(right),
        field_type_text(left) == field_type_text(right),
    ensures
        left == right,
{
    if related_schema(left) is Some && related_schema(right) is Some {
        lemma_relation_text_is_unique(left, right);
    } else {
        reveal_strlit("bool");
        reveal_strlit("int");
        reveal_strlit("float");
        reveal_strlit("str");
        assert("bool"@.len() == 4 && "int"@.len() == 3 && "float"@.len() == 5 && "str"@.len() == 3);
        assert("int"@[0] != "str"@[0]);
        if related_schema(left) is Some {
            lemma_relation_text(left);
        }
        if related_schema(right) is Some {
            lemma_relation_text(right);
        }
    }
}

/// The text of a basic type, or of a relation to a valid name and view id, is read back.
pub(crate) proof fn lemma_readable_type_reads_back(field_type: PandaFieldTypeModel)
    requires
        is_readable_type(field_type),
    ensures
        read_type(field_type_text(field_type)) == Some(field_type),
{
    let text = field_type_text(field_type);
    lemma_type_has_word_character(field_type);
    let found = choose|other: PandaFieldTypeModel|
        is_readable_type(other) && #[trigger] field_type_text(other) == text;
    lemma_readable_text_is_unique(found, field_type);
}

/// What can be read from the document that defines a field.
pub(crate) proof fn lemma_field_document(view: SchemaFieldViewModel)
    ensures
        has_field_texts(field_document(view)),
        text_field(field_document(view), "name"@) == Some(view.name),
        text_field(field_document(view), "type"@) == Some(field_type_text(view.field_type)),
        !has_wordless_type(field_document(view)),
{
    lemma_field_names();
    let fields = field_document(view);
    assert(fields.dom() =~= set!["name"@, "type"@]);
    assert(fields.len() == 2);
    lemma_type_has_word_character(view.field_type);
}

/// Reads the definition of a field from a document.
fn read_field_definition(view: PandaDocumentView) -> (result: Result<
    PandaSchemaFieldView,
    UpdateError,
>)
    ensures
        match result {
            Ok(field) => field_definition(document_id(view), document_fields(view)) == Some(
                field_view_model(field),
            ),
            Err(UpdateError::InvalidFieldDefinition(error)) => {
                &&& field_definition(document_id(view), document_fields(view)) is None
                &&& is_field_error(view, error)
            },
            Err(_) => false,
        },
        forall|definition: SchemaFieldViewModel|
            document_id(view) == definition.id && document_fields(view) == #[trigger]
            field_document(definition) && is_readable_type(definition.field_type) ==> (
            result matches Ok(field) && field_view_model(field) == definition),
{
    proof {
        assert forall|definition: SchemaFieldViewModel|
            document_fields(view) == #[trigger] field_document(definition) implies {
            &&& has_field_texts(document_fields(view))
            &&& !has_wordless_type(document_fields(view))
            &&& text_field(document_fields(view), "name"@) == Some(definition.name)
            &&& text_field(document_fields(view), "type"@) == Some(
                field_type_text(definition.field_type),
            )
        } by {
            lemma_field_document(definition);
        }
        assert forall|definition: SchemaFieldViewModel|
            is_readable_type(definition.field_type) implies read_type(
            #[trigger] field_type_text(definition.field_type),
        ) == Some(definition.field_type) by {
            lemma_readable_type_reads_back(definition.field_type);
        }
    }
    if count_fields(&view) == 2 && read_text_field(&view, "name").is_some() {
        if let Some(text) = read_text_field(&view, "type") {
            if !contains_word_character(text.as_str()) {
                return Err(UpdateError::InvalidFieldDefinition(invalid_type(text)));
            }
        }
    }
    match convert_field_view(view) {
        Ok(field) => Ok(field),
        Err(error) => Err(UpdateError::InvalidFieldDefinition(error)),
    }
}

/// Returns what a field view holds.
fn read_field_view(view: &PandaSchemaFieldView) -> (plain: SchemaFieldView)
    ensures
        plain.deep_view() == field_view_model(*view),
{
    let (id, name, field_type) = field_view_parts(view);
    let field_type = match field_type_parts(field_type) {
        FieldTypeParts::Basic(field_type) => PandaFieldType::basic(field_type),
        FieldTypeParts::Relation(kind, id) => PandaFieldType::relation(kind, read_schema_id(id)),
    };
    SchemaFieldView { id, name, field_type }
}

/// What a lookup of a field definition came back with.
#[derive(Debug)]
pub enum FieldDocument {
    /// There is no such document.
    Missing,
    /// The document was deleted.
    Deleted,
    /// The document has this view.
    View(PandaDocumentView),
}

/// Schema which is being assembled from its definition and those of its fields.
#[derive(Debug)]
pub struct PendingSchema {
    schema_view: PandaSchemaView,
    schema_field_views: Vec<PandaSchemaFieldView>,
}

impl PendingSchema {
    /// Definition of the schema.
    pub closed spec fn definition(self) -> PandaSchemaView {
        self.schema_view
    }

    /// Definitions of the fields that were found so far.
    pub closed spec fn field_definitions(self) -> Seq<PandaSchemaFieldView> {
        self.schema_field_views@
    }

    /// What the definition of the schema holds.
    pub open spec fn view_model(self) -> SchemaViewModel {
        schema_view_model(self.definition())
    }

    /// What the definitions of the fields hold.
    pub open spec fn field_models(self) -> Seq<SchemaFieldViewModel> {
        self.field_definitions().map_values(|field: PandaSchemaFieldView| field_view_model(field))
    }

    /// Some field that the schema pins was not looked up yet.
    pub open spec fn lacks_fields(self) -> bool {
        self.field_definitions().len() < self.view_model().fields.len()
    }

    /// Starts to assemble the schema that a document defines. A deleted document has no view and is
    /// skipped over.
    pub fn begin(view: Option<PandaDocumentView>) -> (result: Result<Option<Self>, UpdateError>)
        ensures
            match result {
                Ok(None) => view is None,
                Ok(Some(pending)) => {
                    &&& view matches Some(view)
                    &&& schema_definition(document_id(view), document_fields(view)) == Some(
                        pending.view_model(),
                    )
                    &&& converted_schema_view(view) == Ok::<PandaSchemaView, SystemSchemaError>(
                        pending.definition(),
                    )
                    &&& pending.field_definitions().len() == 0
                },
                Err(UpdateError::InvalidSchemaDefinition(error)) => {
                    &&& view matches Some(view)
                    &&& schema_definition(document_id(view), document_fields(view)) is None
                    &&& converted_schema_view(view) == Err::<PandaSchemaView, SystemSchemaError>(
                        error,
                    )
                },
                Err(_) => false,
            },
    {
        match view {
            None => Ok(None),
            Some(view) => match convert_schema_view(view) {
                Ok(schema_view) => Ok(
                    Some(PendingSchema { schema_view, schema_field_views: Vec::new() }),
                ),
                Err(error) => Err(UpdateError::InvalidSchemaDefinition(error)),
            },
        }
    }

    /// Returns the id of the next field definition to look up, or `None` when all were found.
    pub fn next_field(&self) -> (next: Option<PandaDocumentViewId>)
        ensures
            match next {
                Some(id) => self.lacks_fields() && view_id_text(id)
                    == self.view_model().fields[self.field_definitions().len() as int],
                None => !self.lacks_fields(),
            },
    {
        let index = self.schema_field_views.len();
        if index < count_pinned(&self.schema_view) {
            Some(pinned_field(&self.schema_view, index))
        } else {
            None
        }
    }

    /// Takes in what the lookup of the next field definition came back with.
    ///
    /// Fails where the document is missing, was deleted or does not define a field.
    pub fn add_field(&mut self, found: FieldDocument) -> (result: Result<(), UpdateError>)
        requires
            old(self).lacks_fields(),
        ensures
            final(self).definition() == old(self).definition(),
            match result {
                Ok(()) => {
                    &&& found matches FieldDocument::View(view)
                    &&& final(self).field_definitions().len() == old(
                        self,
                    ).field_definitions().len() + 1
                    &&& final(self).field_definitions().drop_last() == old(
                        self,
                    ).field_definitions()
                    &&& field_definition(document_id(view), document_fields(view)) == Some(
                        field_view_model(final(self).field_definitions().last()),
                    )
                },
                Err(error) => {
                    &&& final(self).field_definitions() == old(self).field_definitions()
                    &&& match (error, found) {
                        (
                            UpdateError::MissingFieldDefinition(id, schema_id),
                            FieldDocument::Missing,
                        ) => id@ == old(self).view_model().fields[old(
                            self,
                        ).field_definitions().len() as int] && schema_id@ == old(
                            self,
                        ).view_model().view_id,
                        (UpdateError::DeletedFieldDefinition, FieldDocument::Deleted) => true,
                        (
                            UpdateError::InvalidFieldDefinition(reason),
                            FieldDocument::View(view),
                        ) => {
                            &&& field_definition(document_id(view), document_fields(view)) is None
                            &&& is_field_error(view, reason)
                        },
                        _ => false,
                    }
                },
            },
            found matches FieldDocument::View(view) ==> forall|definition: SchemaFieldViewModel|
                document_id(view) == definition.id && document_fields(view) == #[trigger]
                field_document(definition) && is_readable_type(definition.field_type) ==> (
                result is Ok && field_view_model(final(self).field_definitions().last())
                    == definition),
    {
        match found {
            FieldDocument::Missing => {
                let view = read_schema_view(&self.schema_view);
                let id = view.fields[self.schema_field_views.len()].clone();
                Err(UpdateError::MissingFieldDefinition(id, view.view_id))
            },
            FieldDocument::Deleted => Err(UpdateError::DeletedFieldDefinition),
            FieldDocument::View(view) => match read_field_definition(view) {
                Ok(field) => {
                    self.schema_field_views.push(field);
                    assert(self.schema_field_views@.drop_last() =~= old(self).schema_field_views@);
                    Ok(())
                },
                Err(error) => Err(error),
            },
        }
    }

    /// Assembles the schema from all its parts and adds it under its name to the previous schemas,
    /// where it takes the place of an earlier one of that name.
    ///
    /// Fails where the field definitions are not those that the schema pins, or where a name, the
    /// description or the number of fields is invalid.
    pub fn assemble(self, previous_schemas: &mut PreviousSchemas) -> (result: Result<
        (),
        UpdateError,
    >)
        requires
            !self.lacks_fields(),
        ensures
            match result {
                Ok(()) => {
                    &&& can_be_assembled(self.view_model(), self.field_models())
                    &&& is_keyed_by_name(previous_model(old(previous_schemas)@))
                        ==> is_keyed_by_name(previous_model(final(previous_schemas)@))
                    &&& previous_model(final(previous_schemas)@) == previous_model(
                        old(previous_schemas)@,
                    ).insert(
                        self.view_model().name,
                        (PreviousSchemaModel {
                            schema: SchemaIdModel::Application(
                                self.view_model().name,
                                self.view_model().view_id,
                            ),
                            schema_view: self.view_model(),
                            schema_field_views: self.field_models(),
                        }),
                    )
                },
                Err(UpdateError::AssembleSchema(view_id, error)) => {
                    &&& !can_be_assembled(self.view_model(), self.field_models())
                    &&& assembled_schema(self.definition(), self.field_definitions()) == Err::<
                        PandaSchema,
                        SchemaError,
                    >(error)
                    &&& view_id@ == self.view_model().view_id
                    &&& final(previous_schemas)@ == old(previous_schemas)@
                },
                Err(_) => false,
            },
    {
        let schema_view = read_schema_view(&self.schema_view);
        let mut schema_field_views: Vec<SchemaFieldView> = Vec::new();
        for i in 0..self.schema_field_views.len()
            invariant
                schema_field_views.deep_view() == self.field_models().take(i as int),
        {
            let ghost before = schema_field_views.deep_view();
            schema_field_views.push(read_field_view(&self.schema_field_views[i]));
            assert(schema_field_views.deep_view() =~= before.push(self.field_models()[i as int]));
            assert(schema_field_views.deep_view() =~= self.field_models().take(i + 1));
        }
        assert(self.field_models().take(self.field_models().len() as int) =~= self.field_models());
        match assemble_schema(self.schema_view, self.schema_field_views) {
            Ok(schema) => {
                let schema = Schema { id: read_schema_id(schema_id(&schema)) };
                let name = schema.id.name();
                let previous = PreviousSchema::new(&schema, &schema_view, &schema_field_views);
                let ghost before = previous_schemas@;
                previous_schemas.insert(name, previous);
                assert(previous_model(previous_schemas@) =~= previous_model(before).insert(
                    self.view_model().name,
                    previous.deep_view(),
                ));
                Ok(())
            },
            Err(error) => Err(UpdateError::AssembleSchema(schema_view.view_id, error)),
        }
    }
}

} // verus!
