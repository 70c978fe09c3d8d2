//! What reading a schema from its documents gives, in terms of the documents.
use crate::bridge::{
    can_be_assembled, document_fields, document_id, field_view_model, has_field_texts,
    is_readable_text, parsed_other_type, text_field, view_id_text, DocumentFieldsModel,
};
use crate::calls::{lemma_same_texts, lemma_type_text, same_schema_id, type_text};
use crate::error::UpdateError;
use crate::operation::OperationValueModel;
use crate::panda::{
    field_type_text, Schema, SchemaFieldView, SchemaFieldViewModel, SchemaId, SchemaView,
};
use crate::planned::{same_field_view, same_view};
use crate::previous::{
    field_definition, previous_model, FieldDocument, PendingSchema, PreviousSchema, PreviousSchemas,
};
use crate::text::has_word_character;
use p2panda_rs::document::{
    DocumentView as PandaDocumentView, DocumentViewId as PandaDocumentViewId,
};
use vstd::prelude::*;

verus! {

/// The document has this text in the field `name`.
pub open spec fn holds_text(fields: DocumentFieldsModel, name: Seq<char>, text: Seq<char>) -> bool {
    fields.contains_key(name) && fields[name] == Some(OperationValueModel::String(text))
}

/// The document has this pinned relation list in the field `name`.
pub open spec fn holds_list(
    fields: DocumentFieldsModel,
    name: Seq<char>,
    ids: Seq<Seq<char>>,
) -> bool {
    fields.contains_key(name) && fields[name] == Some(OperationValueModel::PinnedRelationList(ids))
}

/// The document defines a schema of this name and description with these fields: it has them, and
/// nothing else.
pub open spec fn defines_schema(
    fields: DocumentFieldsModel,
    name: Seq<char>,
    description: Seq<char>,
    ids: Seq<Seq<char>>,
) -> bool {
    &&& holds_text(fields, "name"@, name)
    &&& holds_text(fields, "description"@, description)
    &&& holds_list(fields, "fields"@, ids)
    &&& fields.len() == 3
}

/// The document has the texts `name` and `type`, and nothing else.
pub open spec fn holds_field(
    fields: DocumentFieldsModel,
    name: Seq<char>,
    type_form: Seq<char>,
) -> bool {
    &&& holds_text(fields, "name"@, name)
    &&& holds_text(fields, "type"@, type_form)
    &&& fields.len() == 2
}

/// The text is read as a field type: it holds a word character and is the text form of a readable
/// type, or p2panda reads another type from it.
pub open spec fn is_type(type_form: Seq<char>) -> bool {
    has_word_character(type_form) && (is_readable_text(type_form) || parsed_other_type(
        type_form,
    ) is Some)
}

/// Reading a schema begins exactly where its document defines one, and passes over one that was
/// deleted.
pub proof fn law_reading_begins_with_a_definition(
    view: Option<PandaDocumentView>,
    result: Result<Option<PendingSchema>, UpdateError>,
)
    requires
        call_ensures(PendingSchema::begin, (view,), result),
    ensures
        match view {
            None => result matches Ok(None),
            Some(view) => if exists|name: Seq<char>, description: Seq<char>, ids: Seq<Seq<char>>|
                #[trigger]
                defines_schema(document_fields(view), name, description, ids) {
                result matches Ok(Some(_))
            } else {
                result matches Err(UpdateError::InvalidSchemaDefinition(_))
            },
        },
{
    if let Some(view) = view {
        let fields = document_fields(view);
        if let Ok(Some(pending)) = result {
            let model = pending.view_model();
            assert(defines_schema(fields, model.name, model.description, model.fields));
        }
        if let Err(error) = result {
            assert forall|name: Seq<char>, description: Seq<char>, ids: Seq<Seq<char>>|
                !#[trigger] defines_schema(fields, name, description, ids) by {}
        }
    }
}

/// What is known in a state of a reading.
spec fn is_state(
    view: PandaDocumentView,
    fields: Seq<PandaDocumentView>,
    state: PendingSchema,
    count: int,
) -> bool {
    let model = state.view_model();
    let found = state.field_definitions();
    &&& model.view_id == document_id(view)
    &&& defines_schema(document_fields(view), model.name, model.description, model.fields)
    &&& found.len() == count
    &&& forall|i: int|
        0 <= i < count ==> is_read_from(
            fields[i],
            field_view_model(#[trigger] found[i]),
        )
}

/// The definition of a field is the one in this document.
spec fn is_read_from(view: PandaDocumentView, field: SchemaFieldViewModel) -> bool {
    exists|text: Seq<char>|
        {
            &&& field.id == document_id(view)
            &&& #[trigger] holds_field(document_fields(view), field.name, text)
            &&& is_type(text)
            &&& if is_readable_text(text) {
                field_type_text(field.field_type) == text
            } else {
                parsed_other_type(text) == Some(field.field_type)
            }
        }
}

/// Adding the document of a field turned the schema from `before` to `after`.
spec fn follows(before: PendingSchema, document: PandaDocumentView, after: PendingSchema) -> bool {
    &&& after.definition() == before.definition()
    &&& after.field_definitions().len() == before.field_definitions().len() + 1
    &&& after.field_definitions().drop_last() == before.field_definitions()
    &&& field_definition(document_id(document), document_fields(document)) == Some(
        field_view_model(after.field_definitions().last()),
    )
}

proof fn lemma_state(
    view: PandaDocumentView,
    fields: Seq<PandaDocumentView>,
    states: Seq<PendingSchema>,
    count: int,
)
    requires
        states.len() == fields.len() + 1,
        call_ensures(
            PendingSchema::begin,
            (Some(view),),
            Ok::<Option<PendingSchema>, UpdateError>(Some(states[0])),
        ),
        forall|k: int|
            #![trigger fields[k]]
            0 <= k < fields.len() ==> follows(states[k], fields[k], states[k + 1]),
        0 <= count <= fields.len(),
    ensures
        is_state(view, fields, states[count], count),
    decreases count,
{
    if count == 0 {
        let model = states[0].view_model();
        assert(defines_schema(document_fields(view), model.name, model.description, model.fields));
    } else {
        lemma_state(view, fields, states, count - 1);
        let before = states[count - 1];
        let after = states[count - 1 + 1];
        let document = fields[count - 1];
        assert(follows(before, document, after));
        let found = after.field_definitions();
        assert(found.drop_last() == before.field_definitions());
        assert forall|i: int| 0 <= i < count implies is_read_from(
            fields[i],
            field_view_model(#[trigger] found[i]),
        ) by {
            if i < count - 1 {
                assert(found[i] == before.field_definitions()[i]);
            } else {
                lemma_read_from(document, field_view_model(found[i]));
            }
        }
    }
}

proof fn lemma_read_from(view: PandaDocumentView, field: SchemaFieldViewModel)
    requires
        field_definition(document_id(view), document_fields(view)) == Some(field),
    ensures
        is_read_from(view, field),
{
    let fields = document_fields(view);
    let text = text_field(fields, "type"@)->0;
    assert(holds_field(fields, field.name, text));
}

/// The fields are asked for one after the other, in the order in which the document lists them, and
/// nothing more once all were found.
pub proof fn law_fields_are_asked_for_in_their_order(
    view: PandaDocumentView,
    fields: Seq<PandaDocumentView>,
    states: Seq<PendingSchema>,
    count: int,
    next: Option<PandaDocumentViewId>,
)
    requires
        states.len() == fields.len() + 1,
        call_ensures(
            PendingSchema::begin,
            (Some(view),),
            Ok::<Option<PendingSchema>, UpdateError>(Some(states[0])),
        ),
        forall|k: int|
            #![trigger fields[k]]
            0 <= k < fields.len() ==> exists|pending: &mut PendingSchema|
                {
                    &&& *pending == states[k]
                    &&& *final(pending) == states[k + 1]
                    &&& #[trigger] call_ensures(
                        PendingSchema::add_field,
                        (pending, FieldDocument::View(fields[k])),
                        Ok::<(), UpdateError>(()),
                    )
                },
        0 <= count <= fields.len(),
        call_ensures(PendingSchema::next_field, (&states[count],), next),
    ensures
        exists|ids: Seq<Seq<char>>| #[trigger]
            holds_list(document_fields(view), "fields"@, ids) && if count < ids.len() {
                next matches Some(id) && view_id_text(id) == ids[count]
            } else {
                next is None
            },
{
    assert forall|k: int|
        #![trigger fields[k]]
        0 <= k < fields.len() implies follows(states[k], fields[k], states[k + 1]) by {}
    lemma_state(view, fields, states, count);
    assert(holds_list(document_fields(view), "fields"@, states[count].view_model().fields));
}

/// What was found for a field is taken in exactly where it is a document that defines a field. Else
/// the error tells what is wrong with it, and nothing changes.
pub proof fn law_only_field_definitions_are_taken_in(
    view: PandaDocumentView,
    fields: Seq<PandaDocumentView>,
    states: Seq<PendingSchema>,
    count: int,
    found: FieldDocument,
    after: PendingSchema,
    result: Result<(), UpdateError>,
)
    requires
        states.len() == fields.len() + 1,
        call_ensures(
            PendingSchema::begin,
            (Some(view),),
            Ok::<Option<PendingSchema>, UpdateError>(Some(states[0])),
        ),
        forall|k: int|
            #![trigger fields[k]]
            0 <= k < fields.len() ==> exists|pending: &mut PendingSchema|
                {
                    &&& *pending == states[k]
                    &&& *final(pending) == states[k + 1]
                    &&& #[trigger] call_ensures(
                        PendingSchema::add_field,
                        (pending, FieldDocument::View(fields[k])),
                        Ok::<(), UpdateError>(()),
                    )
                },
        0 <= count <= fields.len(),
        exists|pending: &mut PendingSchema|
            *pending == states[count] && *final(pending) == after && #[trigger] call_ensures(
                PendingSchema::add_field,
                (pending, found),
                result,
            ),
    ensures
        match found {
            FieldDocument::Missing => {
                &&& result matches Err(UpdateError::MissingFieldDefinition(id, schema_id))
                &&& schema_id@ == document_id(view)
                &&& exists|ids: Seq<Seq<char>>| #[trigger]
                    holds_list(document_fields(view), "fields"@, ids) && id@ == ids[count]
            },
            FieldDocument::Deleted => result matches Err(UpdateError::DeletedFieldDefinition),
            FieldDocument::View(document) => if exists|name: Seq<char>, text: Seq<char>| #[trigger]
                holds_field(document_fields(document), name, text) && is_type(text) {
                result is Ok
            } else {
                result matches Err(UpdateError::InvalidFieldDefinition(_))
            },
        },
        result is Err ==> after.definition() == states[count].definition()
            && after.field_definitions() == states[count].field_definitions(),
{
    assert forall|k: int|
        #![trigger fields[k]]
        0 <= k < fields.len() implies follows(states[k], fields[k], states[k + 1]) by {}
    lemma_state(view, fields, states, count);
    match found {
        FieldDocument::Missing => {
            assert(holds_list(document_fields(view), "fields"@, states[count].view_model().fields));
        },
        FieldDocument::Deleted => {},
        FieldDocument::View(document) => {
            let model = document_fields(document);
            if result is Ok {
                lemma_read_from(document, field_view_model(after.field_definitions().last()));
                let name = field_view_model(after.field_definitions().last()).name;
                let text = choose|text: Seq<char>| #[trigger]
                    holds_field(model, name, text) && is_type(text);
                assert(holds_field(model, name, text) && is_type(text));
            } else {
                assert forall|name: Seq<char>, text: Seq<char>|
                    !(#[trigger] holds_field(model, name, text) && is_type(text)) by {
                    if holds_field(model, name, text) && is_type(text) {
                        assert(has_field_texts(model));
                        assert(text_field(model, "type"@)->0 == text);
                    }
                }
            }
        },
    }
}

/// The definition of a field that was read is the one in this document: its id, its name and its
/// type, whose text form is the text in the document wherever that is the text form of a readable
/// type.
pub open spec fn is_field_of(view: PandaDocumentView, field: SchemaFieldView) -> bool {
    exists|text: Seq<char>|
        {
            &&& field.id@ == document_id(view)
            &&& #[trigger] holds_field(document_fields(view), field.name@, text)
            &&& is_type(text)
            &&& if is_readable_text(text) {
                type_text(field.field_type) == text
            } else {
                parsed_other_type(text) == Some(field.field_type.deep_view())
            }
        }
}

/// The schema is the one of this document and these documents of its fields.
pub open spec fn is_schema_of(
    view: PandaDocumentView,
    fields: Seq<PandaDocumentView>,
    schema: PreviousSchema,
) -> bool {
    &&& schema.schema_view.view_id@ == document_id(view)
    &&& defines_schema(
        document_fields(view),
        schema.schema_view.name@,
        schema.schema_view.description@,
        schema.schema_view.fields@.map_values(|id: String| id@),
    )
    &&& schema.schema.id matches SchemaId::Application(name, view_id)
    &&& name@ == schema.schema_view.name@
    &&& view_id@ == schema.schema_view.view_id@
    &&& schema.schema_field_views@.len() == fields.len()
    &&& forall|i: int|
        0 <= i < fields.len() ==> is_field_of(fields[i], #[trigger] schema.schema_field_views@[i])
}

/// Two previous schemas are the same.
pub open spec fn same_schema(left: PreviousSchema, right: PreviousSchema) -> bool {
    &&& same_schema_id(left.schema.id, right.schema.id)
    &&& same_view(left.schema_view, right.schema_view)
    &&& left.schema_field_views@.len() == right.schema_field_views@.len()
    &&& forall|i: int|
        0 <= i < left.schema_field_views@.len() ==> same_field_view(
            #[trigger] left.schema_field_views@[i],
            right.schema_field_views@[i],
        )
}

proof fn lemma_same_schema(left: PreviousSchema, right: PreviousSchema)
    requires
        left.deep_view() == right.deep_view(),
    ensures
        same_schema(left, right),
{
    lemma_same_texts(left.schema_view.fields, right.schema_view.fields);
    let models = left.schema_field_views.deep_view();
    let others = right.schema_field_views.deep_view();
    assert(models.len() == others.len());
    assert forall|i: int| 0 <= i < left.schema_field_views@.len() implies same_field_view(
        #[trigger] left.schema_field_views@[i],
        right.schema_field_views@[i],
    ) by {
        assert(models[i] == left.schema_field_views@[i].deep_view());
        assert(others[i] == right.schema_field_views@[i].deep_view());
    }
}

/// A schema whose documents were all read is kept under its own name, with exactly what the documents
/// say, in the place of an earlier one of that name. All other schemas stay. Nothing changes where
/// the schema can not be assembled.
pub proof fn law_schema_is_read_from_its_documents(
    view: PandaDocumentView,
    fields: Seq<PandaDocumentView>,
    states: Seq<PendingSchema>,
    before: PreviousSchemas,
    after: PreviousSchemas,
    result: Result<(), UpdateError>,
)
    requires
        states.len() == fields.len() + 1,
        call_ensures(
            PendingSchema::begin,
            (Some(view),),
            Ok::<Option<PendingSchema>, UpdateError>(Some(states[0])),
        ),
        forall|k: int|
            #![trigger fields[k]]
            0 <= k < fields.len() ==> exists|pending: &mut PendingSchema|
                {
                    &&& *pending == states[k]
                    &&& *final(pending) == states[k + 1]
                    &&& #[trigger] call_ensures(
                        PendingSchema::add_field,
                        (pending, FieldDocument::View(fields[k])),
                        Ok::<(), UpdateError>(()),
                    )
                },
        exists|schemas: &mut PreviousSchemas|
            *schemas == before && *final(schemas) == after && #[trigger] call_ensures(
                PendingSchema::assemble,
                (states.last(), schemas),
                result,
            ),
    ensures
        match result {
            Ok(()) => exists|name: Seq<char>|
                {
                    &&& #[trigger] after@.contains_key(name)
                    &&& after@[name].schema_view.name@ == name
                    &&& is_schema_of(view, fields, after@[name])
                    &&& forall|other: Seq<char>|
                        other != name ==> (#[trigger] after@.contains_key(other)
                            <==> before@.contains_key(other))
                    &&& forall|other: Seq<char>|
                        other != name && #[trigger] after@.contains_key(other) ==> same_schema(
                            after@[other],
                            before@[other],
                        )
                },
            Err(error) => {
                &&& error matches UpdateError::AssembleSchema(view_id, _)
                &&& view_id@ == document_id(view)
                &&& after@ == before@
            },
        },
        result is Ok <==> can_be_assembled(
            states.last().view_model(),
            states.last().field_models(),
        ),
{
    let count = fields.len() as int;
    let state = states[count];
    assert forall|k: int|
        #![trigger fields[k]]
        0 <= k < fields.len() implies follows(states[k], fields[k], states[k + 1]) by {}
    lemma_state(view, fields, states, count);
    let model = state.view_model();
    if result is Ok {
        let name = model.name;
        let models = previous_model(after@);
        let earlier = previous_model(before@);
        assert(models.contains_key(name));
        let schema = after@[name];
        assert(models[name] == schema.deep_view());
        assert(schema.schema_view.fields.deep_view() =~= schema.schema_view.fields@.map_values(
            |id: String| id@,
        ));
        let views = schema.schema_field_views;
        assert(views.deep_view() == state.field_models());
        assert forall|i: int| 0 <= i < fields.len() implies is_field_of(
            fields[i],
            #[trigger] views@[i],
        ) by {
            assert(views.deep_view()[i] == views@[i].deep_view());
            let field = field_view_model(state.field_definitions()[i]);
            assert(is_read_from(fields[i], field));
            assert(views@[i].deep_view() == field);
            lemma_type_text(views@[i].field_type);
            let text = choose|text: Seq<char>|
                {
                    &&& field.id == document_id(fields[i])
                    &&& #[trigger] holds_field(document_fields(fields[i]), field.name, text)
                    &&& is_type(text)
                    &&& if is_readable_text(text) {
                        field_type_text(field.field_type) == text
                    } else {
                        parsed_other_type(text) == Some(field.field_type)
                    }
                };
            assert(holds_field(document_fields(fields[i]), views@[i].name@, text));
        }
        assert(is_schema_of(view, fields, schema));
        assert forall|other: Seq<char>| other != name implies (#[trigger] after@.contains_key(other)
            <==> before@.contains_key(other)) by {
            assert(models.contains_key(other) <==> earlier.contains_key(other));
        }
        assert forall|other: Seq<char>|
            other != name && #[trigger] after@.contains_key(other) implies same_schema(
            after@[other],
            before@[other],
        ) by {
            assert(models.contains_key(other) <==> earlier.contains_key(other));
            assert(models[other] == earlier[other]);
            assert(models[other] == after@[other].deep_view());
            assert(earlier[other] == before@[other].deep_view());
            lemma_same_schema(after@[other], before@[other]);
        }
    }
}

/// A previous schema is made of exactly the given parts.
pub proof fn law_previous_schema_is_made_of_its_parts(
    schema: &Schema,
    schema_view: &SchemaView,
    schema_field_views: &Vec<SchemaFieldView>,
    previous: PreviousSchema,
)
    requires
        call_ensures(PreviousSchema::new, (schema, schema_view, schema_field_views), previous),
    ensures
        same_schema_id(previous.schema.id, schema.id),
        same_view(previous.schema_view, *schema_view),
        previous.schema_field_views@.len() == schema_field_views@.len(),
        forall|i: int|
            0 <= i < schema_field_views@.len() ==> same_field_view(
                previous.schema_field_views@[i],
                #[trigger] schema_field_views@[i],
            ),
{
    lemma_same_texts(previous.schema_view.fields, schema_view.fields);
    let models = previous.schema_field_views.deep_view();
    let others = schema_field_views.deep_view();
    assert(models == others);
    assert(models.len() == others.len());
    assert forall|i: int| 0 <= i < schema_field_views@.len() implies same_field_view(
        previous.schema_field_views@[i],
        #[trigger] schema_field_views@[i],
    ) by {
        assert(models[i] == previous.schema_field_views@[i].deep_view());
        assert(others[i] == schema_field_views@[i].deep_view());
    }
}

/// Reading goes on as [`PendingSchema::next_field`] says: where it asks for a field, whatever was found
/// can be added, and else the schema can be assembled.
pub proof fn law_reading_goes_on(state: PendingSchema, next: Option<PandaDocumentViewId>)
    requires
        call_ensures(PendingSchema::next_field, (&state,), next),
    ensures
        next is Some ==> forall|pending: &mut PendingSchema, found: FieldDocument|
            *pending == state ==> #[trigger] call_requires(
                PendingSchema::add_field,
                (pending, found),
            ),
        next is None ==> forall|schemas: &mut PreviousSchemas| #[trigger]
            call_requires(PendingSchema::assemble, (state, schemas)),
{
}

} // verus!
