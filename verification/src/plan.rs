//! Operations that a plan needs.
use crate::diff::{FieldDiffModel, FieldTypeDiffModel, SchemaDiffModel};
use crate::operation::{
    all_fields_count, fields_map, given_fields, Operation, OperationFieldsModel, OperationModel,
    OperationValue, OperationValueModel,
};
use crate::panda::{
    basic_type, field_type_text, relation_type, DocumentViewId, PandaFieldType, PandaFieldTypeModel,
    SchemaFieldView, SchemaFieldViewModel, SchemaIdModel, SchemaView, SchemaViewModel, SystemSchema,
};
use crate::schema_file::{FieldName, SchemaDescription, SchemaName};
use crate::text::{copy_texts, same_texts};
use vstd::prelude::*;

verus! {

/// The fields in which the current version of a schema differs from the previous one.
pub open spec fn schema_changes(
    previous: SchemaViewModel,
    description: Seq<char>,
    field_ids: Seq<Seq<char>>,
) -> OperationFieldsModel {
    let changes = if description != previous.description {
        OperationFieldsModel::empty().insert(
            "description"@,
            OperationValueModel::String(description),
        )
    } else {
        OperationFieldsModel::empty()
    };
    if field_ids != previous.fields {
        changes.insert("fields"@, OperationValueModel::PinnedRelationList(field_ids))
    } else {
        changes
    }
}

/// The operation that brings a schema definition from its previous to its current version: the
/// definition is created where there was none, updated where it differs, else left as it is.
pub open spec fn schema_change(
    name: Seq<char>,
    previous: Option<SchemaViewModel>,
    description: Seq<char>,
    field_ids: Seq<Seq<char>>,
) -> Option<OperationModel> {
    match previous {
        Some(view) => if description == view.description && field_ids == view.fields {
            None
        } else {
            Some(
                OperationModel::Update {
                    schema: SystemSchema::SchemaDefinition(1),
                    previous: view.view_id,
                    fields: schema_changes(view, description, field_ids),
                },
            )
        },
        None => Some(
            OperationModel::Create {
                schema: SystemSchema::SchemaDefinition(1),
                fields: OperationFieldsModel::empty().insert(
                    "name"@,
                    OperationValueModel::String(name),
                ).insert("description"@, OperationValueModel::String(description)).insert(
                    "fields"@,
                    OperationValueModel::PinnedRelationList(field_ids),
                ),
            },
        ),
    }
}

/// The operation that brings a field definition from its previous to its current version: the
/// definition is created where there was none, updated where it differs, else left as it is.
pub open spec fn field_change(
    name: Seq<char>,
    previous: Option<SchemaFieldViewModel>,
    field_type: PandaFieldTypeModel,
) -> Option<OperationModel> {
    match previous {
        Some(view) => if field_type == view.field_type {
            None
        } else {
            Some(
                OperationModel::Update {
                    schema: SystemSchema::SchemaFieldDefinition(1),
                    previous: view.id,
                    fields: OperationFieldsModel::empty().insert(
                        "type"@,
                        OperationValueModel::String(field_type_text(field_type)),
                    ),
                },
            )
        },
        None => Some(
            OperationModel::Create {
                schema: SystemSchema::SchemaFieldDefinition(1),
                fields: OperationFieldsModel::empty().insert(
                    "name"@,
                    OperationValueModel::String(name),
                ).insert("type"@, OperationValueModel::String(field_type_text(field_type))),
            },
        ),
    }
}

/// The names of operation fields differ from each other.
pub(crate) proof fn lemma_field_names()
    ensures
        "name"@ != "description"@,
        "name"@ != "fields"@,
        "name"@ != "type"@,
        "description"@ != "fields"@,
{
    reveal_strlit("name");
    reveal_strlit("description");
    reveal_strlit("fields");
    reveal_strlit("type");
    assert("name"@[0] != "type"@[0]);
    assert("description"@.len() == 11);
    assert("fields"@.len() == 6);
}

proof fn lemma_no_fields(fields: Seq<(Seq<char>, OperationValueModel)>)
    requires
        fields.len() == 0,
    ensures
        fields_map(fields) == OperationFieldsModel::empty(),
{
}

/// One more field of a new name.
proof fn lemma_push_field(
    fields: Seq<(Seq<char>, OperationValueModel)>,
    name: Seq<char>,
    value: OperationValueModel,
)
    requires
        !fields_map(fields).contains_key(name),
    ensures
        fields_map(fields.push((name, value))) == fields_map(fields).insert(name, value),
        all_fields_count(fields) ==> all_fields_count(fields.push((name, value))),
{
    let more = fields.push((name, value));
    assert(more.drop_last() =~= fields);
    if all_fields_count(fields) {
        assert forall|i: int| 0 <= i < more.len() implies fields_map(more).contains_key(
            (#[trigger] more[i]).0,
        ) && fields_map(more)[more[i].0] == more[i].1 by {
            if i < fields.len() {
                assert(more[i] == fields[i]);
            }
        }
    }
}

/// Adds a field of a new name.
fn push_field(fields: &mut Vec<(FieldName, OperationValue)>, name: &str, value: OperationValue)
    requires
        !fields_map(old(fields).deep_view()).contains_key(name@),
    ensures
        fields_map(final(fields).deep_view()) == fields_map(old(fields).deep_view()).insert(
            name@,
            value.deep_view(),
        ),
        all_fields_count(old(fields).deep_view()) ==> all_fields_count(final(fields).deep_view()),
        final(fields)@.len() == old(fields)@.len() + 1,
{
    fields.push((name.to_owned(), value));
    proof {
        lemma_push_field(old(fields).deep_view(), name@, value.deep_view());
        assert(fields.deep_view() =~= old(fields).deep_view().push((name@, value.deep_view())));
    }
}

/// Decides how the definition of a schema has to change, given the view ids of its field
/// definitions.
pub fn schema_operation(
    name: &SchemaName,
    previous_schema_view: &Option<SchemaView>,
    current_description: &SchemaDescription,
    field_view_ids: &Vec<DocumentViewId>,
) -> (operation: Option<Operation>)
    ensures
        operation.deep_view() == schema_change(
            name@,
            previous_schema_view.deep_view(),
            current_description@,
            field_view_ids.deep_view(),
        ),
        operation matches Some(operation) ==> all_fields_count(given_fields(operation)),
{
    let mut fields: Vec<(FieldName, OperationValue)> = Vec::new();
    proof {
        lemma_field_names();
        lemma_no_fields(fields.deep_view());
    }
    match previous_schema_view {
        // A previous version of this schema existed already
        Some(previous) => {
            if *current_description != previous.description {
                push_field(
                    &mut fields,
                    "description",
                    OperationValue::String(current_description.clone()),
                );
            }
            if !same_texts(field_view_ids, &previous.fields) {
                push_field(
                    &mut fields,
                    "fields",
                    OperationValue::PinnedRelationList(copy_texts(field_view_ids)),
                );
            }
            if fields.len() > 0 {
                Some(
                    Operation::Update {
                        schema: SystemSchema::SchemaDefinition(1),
                        previous: previous.view_id.clone(),
                        fields,
                    },
                )
            } else {
                // Nothing has changed ..
                None
            }
        },
        // We can not safely determine a previous version, either it never existed or its name
        // changed. Let's create a new document!
        None => {
            push_field(&mut fields, "name", OperationValue::String(name.clone()));
            push_field(
                &mut fields,
                "description",
                OperationValue::String(current_description.clone()),
            );
            push_field(
                &mut fields,
                "fields",
                OperationValue::PinnedRelationList(copy_texts(field_view_ids)),
            );
            Some(Operation::Create { schema: SystemSchema::SchemaDefinition(1), fields })
        },
    }
}

/// Decides how the definition of a field has to change, given its current type.
pub fn field_operation(
    name: &FieldName,
    previous_field_view: &Option<SchemaFieldView>,
    current_field_type: &PandaFieldType,
) -> (operation: Option<Operation>)
    ensures
        operation.deep_view() == field_change(
            name@,
            previous_field_view.deep_view(),
            current_field_type.deep_view(),
        ),
        operation matches Some(operation) ==> all_fields_count(given_fields(operation)),
{
    let mut fields: Vec<(FieldName, OperationValue)> = Vec::new();
    proof {
        lemma_field_names();
        lemma_no_fields(fields.deep_view());
    }
    match previous_field_view {
        // A previous version of this field existed already
        Some(previous) => {
            if previous.field_type == *current_field_type {
                // Nothing has changed ..
                None
            } else {
                push_field(
                    &mut fields,
                    "type",
                    OperationValue::String(current_field_type.text()),
                );
                Some(
                    Operation::Update {
                        schema: SystemSchema::SchemaFieldDefinition(1),
                        previous: previous.id.clone(),
                        fields,
                    },
                )
            }
        },
        // This field did not exist before, let's create a new document!
        None => {
            push_field(&mut fields, "name", OperationValue::String(name.clone()));
            push_field(&mut fields, "type", OperationValue::String(current_field_type.text()));
            Some(Operation::Create { schema: SystemSchema::SchemaFieldDefinition(1), fields })
        },
    }
}

/// Part of the execution of a plan.
///
/// Publishing an operation brings back the view id of the changed document. An execution that has
/// `n` such replies gets past its first `n` operations.
#[verifier::ext_equal]
pub struct Run {
    /// Operations that came up, in their order.
    pub operations: Seq<OperationModel>,
    /// View ids that the execution came to, or `None` where it waits for the reply to the last
    /// operation.
    pub view_ids: Option<Seq<Seq<char>>>,
}

/// The run that ends with `change`, after it came to some view ids with `operations`. Where nothing
/// changes it comes to the view id `unchanged`, else to the next reply.
pub open spec fn with_change(
    operations: Seq<OperationModel>,
    change: Option<OperationModel>,
    unchanged: Seq<char>,
    replies: Seq<Seq<char>>,
) -> Run {
    match change {
        None => Run { operations, view_ids: Some(seq![unchanged]) },
        Some(operation) => Run {
            operations: operations.push(operation),
            view_ids: if operations.len() < replies.len() {
                Some(seq![replies[operations.len() as int]])
            } else {
                None
            },
        },
    }
}

/// The run of a part and, where that is finished, of another one which gets the remaining replies.
pub open spec fn after(first: Run, second: Run) -> Run {
    match first.view_ids {
        None => first,
        Some(ids) => Run {
            operations: first.operations + second.operations,
            view_ids: match second.view_ids {
                Some(more) => Some(ids + more),
                None => None,
            },
        },
    }
}

/// The replies that are left behind a run.
pub open spec fn replies_behind(run: Run, replies: Seq<Seq<char>>) -> Seq<Seq<char>> {
    replies.skip(run.operations.len() as int)
}

/// View id of the previous schema definition.
pub open spec fn schema_view_id(previous: Option<SchemaViewModel>) -> Seq<char> {
    match previous {
        Some(view) => view.view_id,
        None => Seq::empty(),
    }
}

/// View id of the previous field definition.
pub open spec fn field_view_id(previous: Option<SchemaFieldViewModel>) -> Seq<char> {
    match previous {
        Some(view) => view.id,
        None => Seq::empty(),
    }
}

/// Executes all fields first, they are direct dependencies of a schema. Then the schema definition
/// itself is created or updated. The run comes to the view id of that definition.
pub open spec fn run_schema(diff: SchemaDiffModel, replies: Seq<Seq<char>>) -> Run
    decreases diff,
{
    let fields = run_fields(diff.fields, replies);
    match fields.view_ids {
        None => fields,
        Some(ids) => with_change(
            fields.operations,
            schema_change(diff.name, diff.previous, diff.description, ids),
            schema_view_id(diff.previous),
            replies,
        ),
    }
}

/// Executes fields one after the other. The run comes to the view ids of their definitions.
pub open spec fn run_fields(diffs: Seq<FieldDiffModel>, replies: Seq<Seq<char>>) -> Run
    decreases diffs,
{
    if diffs.len() == 0 {
        Run { operations: Seq::empty(), view_ids: Some(Seq::empty()) }
    } else {
        let front = run_fields(diffs.drop_last(), replies);
        after(front, run_field(diffs.last(), replies_behind(front, replies)))
    }
}

/// Executes the linked schema of a relation first. Then the field definition itself is created or
/// updated. The run comes to the view id of that definition.
pub open spec fn run_field(diff: FieldDiffModel, replies: Seq<Seq<char>>) -> Run
    decreases diff,
{
    match diff.field_type {
        FieldTypeDiffModel::Field(field_type) => with_change(
            Seq::empty(),
            field_change(diff.name, diff.previous, basic_type(field_type)),
            field_view_id(diff.previous),
            replies,
        ),
        FieldTypeDiffModel::Relation(kind, schema) => {
            let linked = run_schema(schema, replies);
            match linked.view_ids {
                None => linked,
                Some(ids) => with_change(
                    linked.operations,
                    field_change(
                        diff.name,
                        diff.previous,
                        relation_type(kind, SchemaIdModel::Application(schema.name, ids[0])),
                    ),
                    field_view_id(diff.previous),
                    replies,
                ),
            }
        },
    }
}

/// Executes plans one after the other. The run comes to the view ids of their schema definitions.
pub open spec fn run_plans(plans: Seq<SchemaDiffModel>, replies: Seq<Seq<char>>) -> Run
    decreases plans.len(),
{
    if plans.len() == 0 {
        Run { operations: Seq::empty(), view_ids: Some(Seq::empty()) }
    } else {
        let front = run_plans(plans.drop_last(), replies);
        after(front, run_schema(plans.last(), replies_behind(front, replies)))
    }
}

/// A run that came to view ids got past all its operations, one that waits past all but the last.
pub open spec fn is_run_of(run: Run, count: nat, replies: Seq<Seq<char>>) -> bool {
    match run.view_ids {
        Some(ids) => ids.len() == count && run.operations.len() <= replies.len(),
        None => run.operations.len() == replies.len() + 1,
    }
}

/// A run of a schema comes to one view id.
pub(crate) proof fn lemma_run_schema(diff: SchemaDiffModel, replies: Seq<Seq<char>>)
    ensures
        is_run_of(run_schema(diff, replies), 1, replies),
    decreases diff,
{
    lemma_run_fields(diff.fields, replies);
}

/// A run of fields comes to one view id for each.
pub(crate) proof fn lemma_run_fields(diffs: Seq<FieldDiffModel>, replies: Seq<Seq<char>>)
    ensures
        is_run_of(run_fields(diffs, replies), diffs.len(), replies),
    decreases diffs,
{
    if diffs.len() > 0 {
        let front = run_fields(diffs.drop_last(), replies);
        lemma_run_fields(diffs.drop_last(), replies);
        if front.view_ids is Some {
            lemma_run_field(diffs.last(), replies_behind(front, replies));
        }
    }
}

/// A run of a field comes to one view id.
pub(crate) proof fn lemma_run_field(diff: FieldDiffModel, replies: Seq<Seq<char>>)
    ensures
        is_run_of(run_field(diff, replies), 1, replies),
    decreases diff,
{
    if let FieldTypeDiffModel::Relation(_, schema) = diff.field_type {
        lemma_run_schema(schema, replies);
    }
}

/// A run of plans comes to one view id for each.
pub(crate) proof fn lemma_run_plans(plans: Seq<SchemaDiffModel>, replies: Seq<Seq<char>>)
    ensures
        is_run_of(run_plans(plans, replies), plans.len(), replies),
    decreases plans.len(),
{
    if plans.len() > 0 {
        let front = run_plans(plans.drop_last(), replies);
        lemma_run_plans(plans.drop_last(), replies);
        if front.view_ids is Some {
            lemma_run_schema(plans.last(), replies_behind(front, replies));
        }
    }
}

} // verus!
