//! Documents that executions write, and the schemas that are read back from them.
use crate::bridge::{
    are_fields_of, are_valid_field_names, can_be_assembled, is_entry_hash, is_valid_schema,
    is_valid_schema_name, is_view_id, lemma_hash_is_view_id, names_of, schema_definition,
    DocumentFieldsModel,
};
use crate::commit::CommitModel;
use crate::current::{current_schemas, lemma_valid_file, CurrentSchemaModel};
use crate::diff::{
    find_field_view, is_field_diff, is_part, is_part_of_field, is_part_of_fields, is_part_of_plan,
    is_plan, is_planned, is_schema_diff, law_schema_diff_is_unique, previous_field, FieldDiffModel,
    FieldTypeDiffModel, SchemaDiffModel,
};
use crate::executor::{record, records, replies_of};
use crate::laws::{
    are_fields_current, hold_field, hold_schema, is_field_current, is_schema_current,
    is_settled_field, is_settled_schema, law_no_schema_is_lost, law_second_update_commits_nothing,
    lemma_find_only, lemma_part_is_diff, lemma_settled_field_list, lemma_settled_plans,
    lemma_settled_schema, previous_field_ids, settled_field, settled_fields, settled_plans,
    settled_schema,
};
use crate::operation::{operation_fields, operation_schema, OperationModel, OperationValueModel};
use crate::panda::{
    field_type_text, PandaFieldTypeModel, SchemaFieldViewModel, SchemaIdModel, SchemaViewModel,
    SystemSchema,
};
use crate::plan::{
    field_change, lemma_field_names, lemma_run_field, lemma_run_fields, lemma_run_plans,
    lemma_run_schema, replies_behind, run_field, run_fields, run_plans, run_schema, schema_change,
};
use crate::previous::{
    field_definition, field_document, is_keyed_by_name, lemma_field_document,
    lemma_readable_type_reads_back, read_type, schema_document, PendingSchema, PreviousSchemaModel,
};
use crate::relations::{
    field_names_are_distinct, find_schema, has_cycle, has_relation_by_id, is_link,
    is_schema_name, lemma_find_schema, linked_name, links_are_known, names_are_distinct, relates,
};
use crate::schema_file::{is_valid_entry, is_valid_file, SchemaDefinitionModel, SchemaFieldModel};
use crate::text::text_lt;
use vstd::prelude::*;

verus! {

/// Documents by view id: the fields that each version has.
pub type Documents = Map<Seq<char>, DocumentFieldsModel>;

/// Fields of a document after an operation: a new document has those of the operation, in an
/// existing one they take the place of the earlier ones.
pub open spec fn written_fields(
    fields: DocumentFieldsModel,
    operation: OperationModel,
) -> DocumentFieldsModel {
    fields.union_prefer_right(
        operation_fields(operation).map_values(|value: OperationValueModel| Some(value)),
    )
}

/// The definition of a schema can be read back from its document.
pub proof fn law_schema_document_reads_back(view: SchemaViewModel)
    ensures
        schema_definition(view.view_id, schema_document(view)) == Some(view),
{
    lemma_field_names();
    let fields = schema_document(view);
    assert(fields.dom() =~= set!["name"@, "description"@, "fields"@]);
    assert(fields.len() == 3);
}

/// The definition of a field can be read back from its document, where p2panda reads the text of
/// its type back.
pub proof fn law_field_document_reads_back(view: SchemaFieldViewModel)
    requires
        read_type(field_type_text(view.field_type)) == Some(view.field_type),
    ensures
        field_definition(view.id, field_document(view)) == Some(view),
{
    lemma_field_document(view);
}

/// An operation on a schema definition writes its current version: the document then has the
/// current description and fields, under the name that it had or gets.
pub proof fn law_schema_operation_writes_current(
    name: Seq<char>,
    previous: Option<SchemaViewModel>,
    description: Seq<char>,
    field_ids: Seq<Seq<char>>,
    view_id: Seq<char>,
)
    requires
        schema_change(name, previous, description, field_ids) is Some,
    ensures
        ({
            let operation = schema_change(name, previous, description, field_ids)->0;
            match previous {
                Some(view) => written_fields(schema_document(view), operation) == schema_document(
                    SchemaViewModel { view_id, name: view.name, description, fields: field_ids },
                ),
                None => written_fields(Map::empty(), operation) == schema_document(
                    SchemaViewModel { view_id, name, description, fields: field_ids },
                ),
            }
        }),
{
    lemma_field_names();
    let operation = schema_change(name, previous, description, field_ids)->0;
    match previous {
        Some(view) => {
            assert(written_fields(schema_document(view), operation) =~= schema_document(
                SchemaViewModel { view_id, name: view.name, description, fields: field_ids },
            ));
        },
        None => {
            assert(written_fields(Map::empty(), operation) =~= schema_document(
                SchemaViewModel { view_id, name, description, fields: field_ids },
            ));
        },
    }
}

/// An operation on a field definition writes its current version: the document then has the current
/// type, under the name that it had or gets.
pub proof fn law_field_operation_writes_current(
    name: Seq<char>,
    previous: Option<SchemaFieldViewModel>,
    field_type: PandaFieldTypeModel,
    id: Seq<char>,
)
    requires
        field_change(name, previous, field_type) is Some,
    ensures
        ({
            let operation = field_change(name, previous, field_type)->0;
            match previous {
                Some(view) => written_fields(field_document(view), operation) == field_document(
                    SchemaFieldViewModel { id, name: view.name, field_type },
                ),
                None => written_fields(Map::empty(), operation) == field_document(
                    SchemaFieldViewModel { id, name, field_type },
                ),
            }
        }),
{
    lemma_field_names();
    let operation = field_change(name, previous, field_type)->0;
    match previous {
        Some(view) => {
            assert(written_fields(field_document(view), operation) =~= field_document(
                SchemaFieldViewModel { id, name: view.name, field_type },
            ));
        },
        None => {
            assert(written_fields(Map::empty(), operation) =~= field_document(
                SchemaFieldViewModel { id, name, field_type },
            ));
        },
    }
}

/// Publishing the operation brought back `id`, and the document then has the fields that were
/// written.
pub open spec fn is_written(documents: Documents, operation: OperationModel, id: Seq<char>) -> bool {
    &&& documents.contains_key(id)
    &&& match operation {
        OperationModel::Create { .. } => documents[id] == written_fields(Map::empty(), operation),
        OperationModel::Update { previous, .. } => {
            &&& documents.contains_key(previous)
            &&& documents[id] == written_fields(documents[previous], operation)
        },
    }
}

/// The documents hold what the operations wrote.
pub open spec fn hold_written(
    documents: Documents,
    operations: Seq<OperationModel>,
    replies: Seq<Seq<char>>,
) -> bool {
    forall|i: int|
        0 <= i < operations.len() && i < replies.len() ==> is_written(
            documents,
            #[trigger] operations[i],
            replies[i],
        )
}

/// The documents hold the previous definitions of a schema and of all that it depends on.
pub open spec fn hold_previous_schema(documents: Documents, diff: SchemaDiffModel) -> bool
    decreases diff,
{
    &&& diff.previous matches Some(view) ==> documents.contains_key(view.view_id)
        && documents[view.view_id] == schema_document(view)
    &&& hold_previous_fields(documents, diff.fields)
}

/// The documents hold the previous definitions of fields and of all that they depend on.
pub open spec fn hold_previous_fields(documents: Documents, diffs: Seq<FieldDiffModel>) -> bool
    decreases diffs,
{
    forall|i: int| 0 <= i < diffs.len() ==> hold_previous_field(documents, #[trigger] diffs[i])
}

/// The documents hold the previous definitions of a field and of all that it depends on.
pub open spec fn hold_previous_field(documents: Documents, diff: FieldDiffModel) -> bool
    decreases diff,
{
    &&& diff.previous matches Some(view) ==> documents.contains_key(view.id)
        && documents[view.id] == field_document(view)
    &&& diff.field_type matches FieldTypeDiffModel::Relation(_, schema) ==> hold_previous_schema(
        documents,
        schema,
    )
}

/// The documents hold the previous definitions of plans and of all that they depend on.
pub open spec fn hold_previous_plans(documents: Documents, plans: Seq<SchemaDiffModel>) -> bool {
    forall|i: int| 0 <= i < plans.len() ==> hold_previous_schema(documents, #[trigger] plans[i])
}

/// The documents hold what a finished execution of a schema left behind.
proof fn lemma_schema_documents(
    documents: Documents,
    diff: SchemaDiffModel,
    replies: Seq<Seq<char>>,
)
    requires
        run_schema(diff, replies).view_ids is Some,
        hold_previous_schema(documents, diff),
        hold_written(documents, run_schema(diff, replies).operations, replies),
    ensures
        hold_previous_schema(documents, settled_schema(diff, replies)),
    decreases diff,
{
    let run = run_schema(diff, replies);
    let fields = run_fields(diff.fields, replies);
    let ids = fields.view_ids->0;
    let view = settled_schema(diff, replies).previous->0;
    let count = fields.operations.len() as int;
    let change = schema_change(diff.name, diff.previous, diff.description, ids);
    assert forall|i: int| 0 <= i < count && i < replies.len() implies is_written(
        documents,
        #[trigger] fields.operations[i],
        replies[i],
    ) by {
        assert(run.operations[i] == fields.operations[i]);
    }
    lemma_fields_documents(documents, diff.fields, replies);
    if change is Some {
        assert(run.operations[count] == change->0);
        assert(is_written(documents, change->0, replies[count]));
        law_schema_operation_writes_current(
            diff.name,
            diff.previous,
            diff.description,
            ids,
            view.view_id,
        );
    }
}

proof fn lemma_fields_documents(
    documents: Documents,
    diffs: Seq<FieldDiffModel>,
    replies: Seq<Seq<char>>,
)
    requires
        run_fields(diffs, replies).view_ids is Some,
        hold_previous_fields(documents, diffs),
        hold_written(documents, run_fields(diffs, replies).operations, replies),
    ensures
        hold_previous_fields(documents, settled_fields(diffs, replies)),
    decreases diffs,
{
    if diffs.len() > 0 {
        let run = run_fields(diffs, replies);
        let front = run_fields(diffs.drop_last(), replies);
        let left = replies_behind(front, replies);
        let last = run_field(diffs.last(), left);
        let count = front.operations.len() as int;
        lemma_run_fields(diffs.drop_last(), replies);
        assert forall|i: int| 0 <= i < count && i < replies.len() implies is_written(
            documents,
            #[trigger] front.operations[i],
            replies[i],
        ) by {
            assert(run.operations[i] == front.operations[i]);
        }
        assert forall|i: int| 0 <= i < last.operations.len() && i < left.len() implies is_written(
            documents,
            #[trigger] last.operations[i],
            left[i],
        ) by {
            assert(run.operations[count + i] == last.operations[i]);
            assert(left[i] == replies[count + i]);
        }
        assert(hold_previous_fields(documents, diffs.drop_last())) by {
            assert forall|i: int| 0 <= i < diffs.len() - 1 implies hold_previous_field(
                documents,
                #[trigger] diffs.drop_last()[i],
            ) by {
                assert(diffs.drop_last()[i] == diffs[i]);
            }
        }
        lemma_fields_documents(documents, diffs.drop_last(), replies);
        assert(hold_previous_field(documents, diffs[diffs.len() - 1]));
        lemma_field_documents(documents, diffs.last(), left);
        let settled = settled_fields(diffs, replies);
        let settled_front = settled_fields(diffs.drop_last(), replies);
        assert forall|i: int| 0 <= i < settled.len() implies hold_previous_field(
            documents,
            #[trigger] settled[i],
        ) by {
            if i < settled_front.len() {
                assert(settled[i] == settled_front[i]);
            }
        }
    }
}

proof fn lemma_field_documents(
    documents: Documents,
    diff: FieldDiffModel,
    replies: Seq<Seq<char>>,
)
    requires
        run_field(diff, replies).view_ids is Some,
        hold_previous_field(documents, diff),
        hold_written(documents, run_field(diff, replies).operations, replies),
    ensures
        hold_previous_field(documents, settled_field(diff, replies)),
    decreases diff,
{
    let run = run_field(diff, replies);
    let view = settled_field(diff, replies).previous->0;
    let change = field_change(diff.name, diff.previous, view.field_type);
    let count = match diff.field_type {
        FieldTypeDiffModel::Field(_) => 0int,
        FieldTypeDiffModel::Relation(_, schema) => run_schema(
            schema,
            replies,
        ).operations.len() as int,
    };
    if let FieldTypeDiffModel::Relation(_, schema) = diff.field_type {
        let linked = run_schema(schema, replies);
        assert forall|i: int| 0 <= i < count && i < replies.len() implies is_written(
            documents,
            #[trigger] linked.operations[i],
            replies[i],
        ) by {
            assert(run.operations[i] == linked.operations[i]);
        }
        lemma_schema_documents(documents, schema, replies);
    }
    if change is Some {
        assert(run.operations[count] == change->0);
        assert(is_written(documents, change->0, replies[count]));
        law_field_operation_writes_current(diff.name, diff.previous, view.field_type, view.id);
    }
}

/// The documents hold what a finished execution of plans left behind.
proof fn lemma_plan_documents(
    documents: Documents,
    plans: Seq<SchemaDiffModel>,
    replies: Seq<Seq<char>>,
)
    requires
        run_plans(plans, replies).view_ids is Some,
        hold_previous_plans(documents, plans),
        hold_written(documents, run_plans(plans, replies).operations, replies),
    ensures
        hold_previous_plans(documents, settled_plans(plans, replies)),
    decreases plans.len(),
{
    if plans.len() > 0 {
        let run = run_plans(plans, replies);
        let front = run_plans(plans.drop_last(), replies);
        let left = replies_behind(front, replies);
        let last = run_schema(plans.last(), left);
        let count = front.operations.len() as int;
        lemma_run_plans(plans.drop_last(), replies);
        assert forall|i: int| 0 <= i < count && i < replies.len() implies is_written(
            documents,
            #[trigger] front.operations[i],
            replies[i],
        ) by {
            assert(run.operations[i] == front.operations[i]);
        }
        assert forall|i: int| 0 <= i < last.operations.len() && i < left.len() implies is_written(
            documents,
            #[trigger] last.operations[i],
            left[i],
        ) by {
            assert(run.operations[count + i] == last.operations[i]);
            assert(left[i] == replies[count + i]);
        }
        assert(hold_previous_plans(documents, plans.drop_last())) by {
            assert forall|i: int| 0 <= i < plans.len() - 1 implies hold_previous_schema(
                documents,
                #[trigger] plans.drop_last()[i],
            ) by {
                assert(plans.drop_last()[i] == plans[i]);
            }
        }
        lemma_plan_documents(documents, plans.drop_last(), replies);
        assert(hold_previous_schema(documents, plans[plans.len() - 1]));
        lemma_schema_documents(documents, plans.last(), left);
        let settled = settled_plans(plans, replies);
        let settled_front = settled_plans(plans.drop_last(), replies);
        assert forall|i: int| 0 <= i < settled.len() implies hold_previous_schema(
            documents,
            #[trigger] settled[i],
        ) by {
            if i < settled_front.len() {
                assert(settled[i] == settled_front[i]);
            }
        }
    }
}

/// The field definition of this view id, read from the documents.
pub open spec fn read_field(documents: Documents, id: Seq<char>) -> Option<SchemaFieldViewModel> {
    if documents.contains_key(id) {
        field_definition(id, documents[id])
    } else {
        None
    }
}

/// The field definitions of these view ids, read from the documents, where all can be read.
pub open spec fn read_fields(documents: Documents, ids: Seq<Seq<char>>) -> Option<
    Seq<SchemaFieldViewModel>,
>
    decreases ids.len(),
{
    if ids.len() == 0 {
        Some(Seq::empty())
    } else {
        match (read_fields(documents, ids.drop_last()), read_field(documents, ids.last())) {
            (Some(front), Some(last)) => Some(front.push(last)),
            _ => None,
        }
    }
}

/// The schema whose definition has this view id, read from the documents, where the definitions can
/// be read and the schema can be assembled from them.
pub open spec fn read_schema(documents: Documents, id: Seq<char>) -> Option<PreviousSchemaModel> {
    if documents.contains_key(id) {
        match schema_definition(id, documents[id]) {
            Some(view) => match read_fields(documents, view.fields) {
                Some(fields) => if can_be_assembled(view, fields) {
                    Some(
                        PreviousSchemaModel {
                            schema: SchemaIdModel::Application(view.name, view.view_id),
                            schema_view: view,
                            schema_field_views: fields,
                        },
                    )
                } else {
                    None
                },
                None => None,
            },
            None => None,
        }
    } else {
        None
    }
}

/// The schemas whose definitions have these view ids, read from the documents and kept by name,
/// where all can be read. One that is read later takes the place of an earlier one of that name.
pub open spec fn read_schemas(documents: Documents, ids: Seq<Seq<char>>) -> Option<
    Map<Seq<char>, PreviousSchemaModel>,
>
    decreases ids.len(),
{
    if ids.len() == 0 {
        Some(Map::empty())
    } else {
        match (read_schemas(documents, ids.drop_last()), read_schema(documents, ids.last())) {
            (Some(front), Some(schema)) => Some(front.insert(schema.schema_view.name, schema)),
            _ => None,
        }
    }
}

/// The text of every type in the previous field definitions of a schema is read back.
pub open spec fn types_read_back(diff: SchemaDiffModel) -> bool {
    forall|i: int|
        0 <= i < diff.fields.len() ==> ((#[trigger] diff.fields[i]).previous matches Some(view)
            ==> read_type(field_type_text(view.field_type)) == Some(view.field_type))
}

/// The previous definitions of fields.
pub open spec fn previous_views(diffs: Seq<FieldDiffModel>) -> Seq<SchemaFieldViewModel> {
    diffs.map_values(|diff: FieldDiffModel| diff.previous->0)
}

/// The schema that the previous definitions in a diff make up.
pub open spec fn previous_schema(diff: SchemaDiffModel) -> PreviousSchemaModel {
    PreviousSchemaModel {
        schema: SchemaIdModel::Application(
            (diff.previous->0).name,
            (diff.previous->0).view_id,
        ),
        schema_view: diff.previous->0,
        schema_field_views: previous_views(diff.fields),
    }
}

proof fn lemma_each_field_is_current(diffs: Seq<FieldDiffModel>, index: int)
    requires
        are_fields_current(diffs),
        0 <= index < diffs.len(),
    ensures
        is_field_current(diffs[index]),
    decreases diffs.len(),
{
    if index < diffs.len() - 1 {
        lemma_each_field_is_current(diffs.drop_last(), index);
    }
}

proof fn lemma_read_fields(documents: Documents, diffs: Seq<FieldDiffModel>)
    requires
        hold_previous_fields(documents, diffs),
        forall|i: int|
            0 <= i < diffs.len() ==> ((#[trigger] diffs[i]).previous matches Some(view)
                && read_type(field_type_text(view.field_type)) == Some(view.field_type)),
    ensures
        read_fields(documents, previous_field_ids(diffs)) == Some(previous_views(diffs)),
    decreases diffs.len(),
{
    let ids = previous_field_ids(diffs);
    if diffs.len() == 0 {
        assert(previous_views(diffs) =~= Seq::empty());
    } else {
        let front = diffs.drop_last();
        assert forall|i: int| 0 <= i < front.len() implies (
        (#[trigger] front[i]).previous matches Some(view) && read_type(
            field_type_text(view.field_type),
        ) == Some(view.field_type)) && hold_previous_field(documents, front[i]) by {
            assert(front[i] == diffs[i]);
        }
        lemma_read_fields(documents, front);
        assert(ids.drop_last() =~= previous_field_ids(front));
        let last = diffs[diffs.len() - 1];
        assert(hold_previous_field(documents, last));
        law_field_document_reads_back(last.previous->0);
        assert(previous_views(diffs) =~= previous_views(front).push(last.previous->0));
    }
}

/// The schema that the previous definitions in a diff make up is a valid one.
pub open spec fn is_previous_valid(diff: SchemaDiffModel) -> bool {
    is_valid_schema(
        (diff.previous->0).name,
        (diff.previous->0).description,
        names_of(previous_views(diff.fields)),
    )
}

/// A schema whose definitions are current is read back from the documents that hold them, where it
/// is valid.
proof fn lemma_read_schema(documents: Documents, diff: SchemaDiffModel)
    requires
        is_schema_current(diff),
        hold_previous_schema(documents, diff),
        types_read_back(diff),
    ensures
        read_schema(documents, (diff.previous->0).view_id) == if is_previous_valid(diff) {
            Some(previous_schema(diff))
        } else {
            None
        },
{
    assert forall|i: int| 0 <= i < diff.fields.len() implies (
    (#[trigger] diff.fields[i]).previous matches Some(view) && read_type(
        field_type_text(view.field_type),
    ) == Some(view.field_type)) by {
        lemma_each_field_is_current(diff.fields, i);
    }
    lemma_read_fields(documents, diff.fields);
    law_schema_document_reads_back(diff.previous->0);
    let view = diff.previous->0;
    let fields = previous_views(diff.fields);
    assert(view.fields == previous_field_ids(diff.fields));
    assert(are_fields_of(view, fields)) by {
        assert forall|i: int| 0 <= i < view.fields.len() implies exists|j: int|
            0 <= j < fields.len() && (#[trigger] fields[j]).id == #[trigger] view.fields[i] by {
            assert(fields[i].id == view.fields[i]);
        }
    }
}

/// What holds of a diff holds of its parts.
proof fn lemma_part_is_current(documents: Documents, whole: SchemaDiffModel, part: SchemaDiffModel)
    requires
        is_part(whole, part),
        is_schema_current(whole),
        hold_previous_schema(documents, whole),
    ensures
        is_schema_current(part),
        hold_previous_schema(documents, part),
    decreases whole,
{
    if whole != part {
        let i = choose|i: int|
            0 <= i < whole.fields.len() && is_part_of_field(#[trigger] whole.fields[i], part);
        lemma_each_field_is_current(whole.fields, i);
        assert(hold_previous_field(documents, whole.fields[i]));
        let linked = whole.fields[i].field_type->Relation_1;
        assert(decreases_to!(whole => whole.fields));
        assert(decreases_to!(whole.fields => whole.fields[i]));
        lemma_part_is_current(documents, linked, part);
    }
}

/// The document of this view id is read as a schema of this name.
pub open spec fn is_read_as(documents: Documents, id: Seq<char>, name: Seq<char>) -> bool {
    read_schema(documents, id) matches Some(schema) && schema.schema_view.name == name
}

/// Schemas are read where each of them is.
proof fn lemma_read_each_schema(documents: Documents, ids: Seq<Seq<char>>)
    ensures
        read_schemas(documents, ids) is Some <==> forall|i: int|
            0 <= i < ids.len() ==> read_schema(documents, #[trigger] ids[i]) is Some,
    decreases ids.len(),
{
    if ids.len() > 0 {
        let front = ids.drop_last();
        lemma_read_each_schema(documents, front);
        if read_schemas(documents, ids) is Some {
            assert forall|i: int| 0 <= i < ids.len() implies read_schema(
                documents,
                #[trigger] ids[i],
            ) is Some by {
                if i < front.len() {
                    assert(front[i] == ids[i]);
                }
            }
        }
        if forall|i: int|
            0 <= i < ids.len() ==> read_schema(documents, #[trigger] ids[i]) is Some {
            assert forall|i: int| 0 <= i < front.len() implies read_schema(
                documents,
                #[trigger] front[i],
            ) is Some by {
                assert(front[i] == ids[i]);
            }
            assert(read_schema(documents, ids[ids.len() - 1]) is Some);
        }
    }
}

proof fn lemma_read_schemas(
    documents: Documents,
    ids: Seq<Seq<char>>,
    schemas: Map<Seq<char>, PreviousSchemaModel>,
    name: Seq<char>,
)
    requires
        read_schemas(documents, ids) == Some(schemas),
    ensures
        schemas.contains_key(name) <==> exists|i: int|
            0 <= i < ids.len() && is_read_as(documents, #[trigger] ids[i], name),
        schemas.contains_key(name) ==> exists|i: int|
            0 <= i < ids.len() && is_read_as(documents, #[trigger] ids[i], name) && read_schema(
                documents,
                ids[i],
            ) == Some(schemas[name]),
    decreases ids.len(),
{
    if ids.len() > 0 {
        let front = ids.drop_last();
        let last = ids[ids.len() - 1];
        let earlier = read_schemas(documents, front)->0;
        lemma_read_schemas(documents, front, earlier, name);
        if is_read_as(documents, last, name) {
            assert(is_read_as(documents, ids[ids.len() - 1], name));
        } else {
            if earlier.contains_key(name) {
                let i = choose|i: int|
                    0 <= i < front.len() && is_read_as(documents, #[trigger] front[i], name)
                        && read_schema(documents, front[i]) == Some(earlier[name]);
                assert(ids[i] == front[i]);
            }
            if exists|i: int| 0 <= i < ids.len() && is_read_as(documents, #[trigger] ids[i], name) {
                let i = choose|i: int|
                    0 <= i < ids.len() && is_read_as(documents, #[trigger] ids[i], name);
                assert(front[i] == ids[i]);
            }
        }
    }
}

/// The parts of a settled diff are the settled parts of the diff.
proof fn lemma_settled_part(
    diff: SchemaDiffModel,
    replies: Seq<Seq<char>>,
    settled: SchemaDiffModel,
) -> (part: SchemaDiffModel)
    requires
        is_part(settled_schema(diff, replies), settled),
    ensures
        is_part(diff, part),
        is_settled_schema(settled, part),
    decreases diff,
{
    let whole = settled_schema(diff, replies);
    if whole == settled {
        diff
    } else {
        lemma_settled_field_list(diff.fields, replies);
        let i = choose|i: int|
            0 <= i < whole.fields.len() && is_part_of_field(#[trigger] whole.fields[i], settled);
        assert(whole.fields[i] == settled_fields(diff.fields, replies)[i]);
        let field = diff.fields[i];
        let r = choose|r: Seq<Seq<char>>| whole.fields[i] == #[trigger] settled_field(field, r);
        assert(is_settled_field(whole.fields[i], field));
        let linked = field.field_type->Relation_1;
        assert(decreases_to!(diff => diff.fields));
        assert(decreases_to!(diff.fields => diff.fields[i]));
        let part = lemma_settled_part(linked, r, settled);
        assert(is_part_of_field(field, part));
        part
    }
}

/// The parts of a diff have their settled counterparts.
proof fn lemma_part_settled(
    diff: SchemaDiffModel,
    replies: Seq<Seq<char>>,
    part: SchemaDiffModel,
) -> (settled: SchemaDiffModel)
    requires
        is_part(diff, part),
    ensures
        is_part(settled_schema(diff, replies), settled),
        is_settled_schema(settled, part),
    decreases diff,
{
    let whole = settled_schema(diff, replies);
    if diff == part {
        whole
    } else {
        lemma_settled_field_list(diff.fields, replies);
        let i = choose|i: int|
            0 <= i < diff.fields.len() && is_part_of_field(#[trigger] diff.fields[i], part);
        let field = diff.fields[i];
        assert(whole.fields[i] == settled_fields(diff.fields, replies)[i]);
        assert(is_settled_field(whole.fields[i], field));
        let r = choose|r: Seq<Seq<char>>| whole.fields[i] == #[trigger] settled_field(field, r);
        let linked = field.field_type->Relation_1;
        assert(decreases_to!(diff => diff.fields));
        assert(decreases_to!(diff.fields => diff.fields[i]));
        let settled = lemma_part_settled(linked, r, part);
        assert(is_part_of_field(whole.fields[i], settled));
        settled
    }
}

/// Operation `index` writes the definition of a schema, under the view id `id`.
pub open spec fn defines_schema(
    operations: Seq<OperationModel>,
    replies: Seq<Seq<char>>,
    index: int,
    id: Seq<char>,
) -> bool {
    &&& 0 <= index < operations.len()
    &&& index < replies.len()
    &&& operation_schema(operations[index]) == SystemSchema::SchemaDefinition(1)
    &&& replies[index] == id
}

/// The definition of every schema that is written is one that the execution left behind.
proof fn lemma_written_schema(
    diff: SchemaDiffModel,
    replies: Seq<Seq<char>>,
    index: int,
    id: Seq<char>,
) -> (part: SchemaDiffModel)
    requires
        run_schema(diff, replies).view_ids is Some,
        defines_schema(run_schema(diff, replies).operations, replies, index, id),
    ensures
        is_part(settled_schema(diff, replies), part),
        part.previous matches Some(view) && view.view_id == id,
    decreases diff,
{
    let fields = run_fields(diff.fields, replies);
    let settled = settled_schema(diff, replies);
    if index < fields.operations.len() {
        assert(defines_schema(fields.operations, replies, index, id));
        lemma_written_by_fields(diff.fields, replies, index, id)
    } else {
        settled
    }
}

proof fn lemma_written_by_fields(
    diffs: Seq<FieldDiffModel>,
    replies: Seq<Seq<char>>,
    index: int,
    id: Seq<char>,
) -> (part: SchemaDiffModel)
    requires
        run_fields(diffs, replies).view_ids is Some,
        defines_schema(run_fields(diffs, replies).operations, replies, index, id),
    ensures
        is_part_of_fields(settled_fields(diffs, replies), part),
        part.previous matches Some(view) && view.view_id == id,
    decreases diffs,
{
    let front = run_fields(diffs.drop_last(), replies);
    let left = replies_behind(front, replies);
    let count = front.operations.len() as int;
    let settled = settled_fields(diffs, replies);
    let settled_front = settled_fields(diffs.drop_last(), replies);
    lemma_run_fields(diffs.drop_last(), replies);
    if index < count {
        assert(defines_schema(front.operations, replies, index, id));
        let part = lemma_written_by_fields(diffs.drop_last(), replies, index, id);
        let i = choose|i: int|
            0 <= i < settled_front.len() && is_part_of_field(#[trigger] settled_front[i], part);
        assert(settled[i] == settled_front[i]);
        part
    } else {
        let last = run_field(diffs.last(), left);
        assert(defines_schema(last.operations, left, index - count, id));
        let part = lemma_written_by_field(diffs.last(), left, index - count, id);
        assert(settled[settled.len() - 1] == settled_field(diffs.last(), left));
        part
    }
}

proof fn lemma_written_by_field(
    diff: FieldDiffModel,
    replies: Seq<Seq<char>>,
    index: int,
    id: Seq<char>,
) -> (part: SchemaDiffModel)
    requires
        run_field(diff, replies).view_ids is Some,
        defines_schema(run_field(diff, replies).operations, replies, index, id),
    ensures
        is_part_of_field(settled_field(diff, replies), part),
        part.previous matches Some(view) && view.view_id == id,
    decreases diff,
{
    let schema = diff.field_type->Relation_1;
    assert(diff.field_type is Relation);
    let linked = run_schema(schema, replies);
    assert(index < linked.operations.len());
    assert(defines_schema(linked.operations, replies, index, id));
    lemma_written_schema(schema, replies, index, id)
}

/// The schema did not exist before, nor did any that it depends on.
pub open spec fn is_new(diff: SchemaDiffModel) -> bool
    decreases diff,
{
    diff.previous is None && are_fields_new(diff.fields)
}

/// The fields did not exist before, nor did any schema that they depend on.
pub open spec fn are_fields_new(diffs: Seq<FieldDiffModel>) -> bool
    decreases diffs,
{
    forall|i: int| 0 <= i < diffs.len() ==> is_field_new(#[trigger] diffs[i])
}

/// The field did not exist before, nor did any schema that it depends on.
pub open spec fn is_field_new(diff: FieldDiffModel) -> bool
    decreases diff,
{
    &&& diff.previous is None
    &&& diff.field_type matches FieldTypeDiffModel::Relation(_, schema) ==> is_new(schema)
}

/// Every definition of a new schema that an execution left behind was written.
proof fn lemma_new_schema_is_written(
    diff: SchemaDiffModel,
    replies: Seq<Seq<char>>,
    part: SchemaDiffModel,
) -> (index: int)
    requires
        is_new(diff),
        run_schema(diff, replies).view_ids is Some,
        is_part(settled_schema(diff, replies), part),
    ensures
        defines_schema(
            run_schema(diff, replies).operations,
            replies,
            index,
            (part.previous->0).view_id,
        ),
    decreases diff,
{
    let fields = run_fields(diff.fields, replies);
    lemma_run_schema(diff, replies);
    if settled_schema(diff, replies) == part {
        fields.operations.len() as int
    } else {
        lemma_new_fields_are_written(diff.fields, replies, part)
    }
}

proof fn lemma_new_fields_are_written(
    diffs: Seq<FieldDiffModel>,
    replies: Seq<Seq<char>>,
    part: SchemaDiffModel,
) -> (index: int)
    requires
        are_fields_new(diffs),
        run_fields(diffs, replies).view_ids is Some,
        is_part_of_fields(settled_fields(diffs, replies), part),
    ensures
        defines_schema(
            run_fields(diffs, replies).operations,
            replies,
            index,
            (part.previous->0).view_id,
        ),
    decreases diffs,
{
    let front_diffs = diffs.drop_last();
    let front = run_fields(front_diffs, replies);
    let left = replies_behind(front, replies);
    let settled = settled_fields(diffs, replies);
    let settled_front = settled_fields(front_diffs, replies);
    lemma_run_fields(front_diffs, replies);
    let i = choose|i: int|
        0 <= i < settled.len() && is_part_of_field(#[trigger] settled[i], part);
    lemma_settled_field_list(diffs, replies);
    lemma_settled_field_list(front_diffs, replies);
    if i < settled.len() - 1 {
        assert(settled_front[i] == settled[i]);
        assert(are_fields_new(front_diffs)) by {
            assert forall|k: int| 0 <= k < front_diffs.len() implies is_field_new(
                #[trigger] front_diffs[k],
            ) by {
                assert(front_diffs[k] == diffs[k]);
            }
        }
        lemma_new_fields_are_written(front_diffs, replies, part)
    } else {
        let last = diffs[diffs.len() - 1];
        assert(is_field_new(last));
        assert(settled[i] == settled_field(last, left));
        lemma_run_field(last, left);
        front.operations.len() + lemma_new_field_is_written(last, left, part)
    }
}

proof fn lemma_new_field_is_written(
    diff: FieldDiffModel,
    replies: Seq<Seq<char>>,
    part: SchemaDiffModel,
) -> (index: int)
    requires
        is_field_new(diff),
        run_field(diff, replies).view_ids is Some,
        is_part_of_field(settled_field(diff, replies), part),
    ensures
        defines_schema(
            run_field(diff, replies).operations,
            replies,
            index,
            (part.previous->0).view_id,
        ),
    decreases diff,
{
    let schema = diff.field_type->Relation_1;
    lemma_new_schema_is_written(schema, replies, part)
}

/// What plans wrote and what they left behind.
proof fn lemma_written_by_plans(
    plans: Seq<SchemaDiffModel>,
    replies: Seq<Seq<char>>,
    index: int,
    id: Seq<char>,
) -> (part: SchemaDiffModel)
    requires
        run_plans(plans, replies).view_ids is Some,
        defines_schema(run_plans(plans, replies).operations, replies, index, id),
    ensures
        is_part_of_plan(settled_plans(plans, replies), part),
        part.previous matches Some(view) && view.view_id == id,
    decreases plans.len(),
{
    let front = run_plans(plans.drop_last(), replies);
    let left = replies_behind(front, replies);
    let count = front.operations.len() as int;
    let settled = settled_plans(plans, replies);
    let settled_front = settled_plans(plans.drop_last(), replies);
    lemma_run_plans(plans.drop_last(), replies);
    if index < count {
        assert(defines_schema(front.operations, replies, index, id));
        let part = lemma_written_by_plans(plans.drop_last(), replies, index, id);
        let i = choose|i: int|
            0 <= i < settled_front.len() && is_part(#[trigger] settled_front[i], part);
        assert(settled[i] == settled_front[i]);
        part
    } else {
        let last = run_schema(plans.last(), left);
        assert(defines_schema(last.operations, left, index - count, id));
        let part = lemma_written_schema(plans.last(), left, index - count, id);
        assert(settled[settled.len() - 1] == settled_schema(plans.last(), left));
        part
    }
}

proof fn lemma_new_plans_are_written(
    plans: Seq<SchemaDiffModel>,
    replies: Seq<Seq<char>>,
    part: SchemaDiffModel,
) -> (index: int)
    requires
        forall|i: int| 0 <= i < plans.len() ==> is_new(#[trigger] plans[i]),
        run_plans(plans, replies).view_ids is Some,
        is_part_of_plan(settled_plans(plans, replies), part),
    ensures
        defines_schema(
            run_plans(plans, replies).operations,
            replies,
            index,
            (part.previous->0).view_id,
        ),
    decreases plans.len(),
{
    let front_plans = plans.drop_last();
    let front = run_plans(front_plans, replies);
    let left = replies_behind(front, replies);
    let settled = settled_plans(plans, replies);
    let settled_front = settled_plans(front_plans, replies);
    lemma_run_plans(front_plans, replies);
    lemma_settled_plans(plans, replies);
    lemma_settled_plans(front_plans, replies);
    let i = choose|i: int| 0 <= i < settled.len() && is_part(#[trigger] settled[i], part);
    if i < settled.len() - 1 {
        assert(settled_front[i] == settled[i]);
        assert forall|k: int| 0 <= k < front_plans.len() implies is_new(
            #[trigger] front_plans[k],
        ) by {
            assert(front_plans[k] == plans[k]);
        }
        lemma_new_plans_are_written(front_plans, replies, part)
    } else {
        let last = plans[plans.len() - 1];
        assert(is_new(last));
        assert(settled[i] == settled_schema(last, left));
        lemma_run_schema(last, left);
        front.operations.len() + lemma_new_schema_is_written(last, left, part)
    }
}

proof fn lemma_settled_plans_are_current(
    plans: Seq<SchemaDiffModel>,
    replies: Seq<Seq<char>>,
    index: int,
)
    requires
        run_plans(plans, replies).view_ids is Some,
        0 <= index < plans.len(),
    ensures
        is_schema_current(settled_plans(plans, replies)[index]),
    decreases plans.len(),
{
    let front = run_plans(plans.drop_last(), replies);
    let left = replies_behind(front, replies);
    let settled = settled_plans(plans, replies);
    lemma_settled_plans(plans.drop_last(), replies);
    if index < plans.len() - 1 {
        lemma_settled_plans_are_current(plans.drop_last(), replies, index);
        assert(settled[index] == settled_plans(plans.drop_last(), replies)[index]);
    } else {
        lemma_settled_schema(plans.last(), left);
    }
}

/// What a finished execution left behind is read back from the documents, where it is valid.
proof fn lemma_left_behind_is_read(
    documents: Documents,
    plans: Seq<SchemaDiffModel>,
    replies: Seq<Seq<char>>,
    part: SchemaDiffModel,
)
    requires
        run_plans(plans, replies).view_ids is Some,
        hold_previous_plans(documents, plans),
        hold_written(documents, run_plans(plans, replies).operations, replies),
        is_part_of_plan(settled_plans(plans, replies), part),
        types_read_back(part),
    ensures
        is_schema_current(part),
        read_schema(documents, (part.previous->0).view_id) == if is_previous_valid(part) {
            Some(previous_schema(part))
        } else {
            None
        },
{
    let settled = settled_plans(plans, replies);
    let i = choose|i: int| 0 <= i < settled.len() && is_part(#[trigger] settled[i], part);
    lemma_settled_plans(plans, replies);
    lemma_settled_plans_are_current(plans, replies, i);
    lemma_plan_documents(documents, plans, replies);
    assert(hold_previous_schema(documents, settled[i]));
    lemma_part_is_current(documents, settled[i], part);
    lemma_read_schema(documents, part);
}

pub(crate) proof fn lemma_new_has_no_documents(documents: Documents, diff: SchemaDiffModel)
    requires
        is_new(diff),
    ensures
        hold_previous_schema(documents, diff),
    decreases diff,
{
    assert forall|i: int| 0 <= i < diff.fields.len() implies hold_previous_field(
        documents,
        #[trigger] diff.fields[i],
    ) by {
        assert(is_field_new(diff.fields[i]));
        if let FieldTypeDiffModel::Relation(_, schema) = diff.fields[i].field_type {
            assert(decreases_to!(diff => diff.fields));
            assert(decreases_to!(diff.fields => diff.fields[i]));
            lemma_new_has_no_documents(documents, schema);
        }
    }
}

proof fn lemma_part_is_new(whole: SchemaDiffModel, part: SchemaDiffModel)
    requires
        is_new(whole),
        is_part(whole, part),
    ensures
        is_new(part),
    decreases whole,
{
    if whole != part {
        let i = choose|i: int|
            0 <= i < whole.fields.len() && is_part_of_field(#[trigger] whole.fields[i], part);
        assert(is_field_new(whole.fields[i]));
        assert(decreases_to!(whole => whole.fields));
        assert(decreases_to!(whole.fields => whole.fields[i]));
        lemma_part_is_new(whole.fields[i].field_type->Relation_1, part);
    }
}

/// Fields can link to the schema: it has a valid name and, where there is a previous definition, that
/// one has a valid view id.
pub open spec fn is_linkable(diff: SchemaDiffModel) -> bool {
    &&& is_valid_schema_name(diff.name)
    &&& diff.previous matches Some(view) ==> is_view_id(view.view_id)
}

/// The fields of a schema link to schemas with valid names and view ids only.
pub open spec fn has_valid_links(diff: SchemaDiffModel) -> bool {
    forall|i: int|
        0 <= i < diff.fields.len() ==> ((
        #[trigger] diff.fields[i]).field_type matches FieldTypeDiffModel::Relation(_, linked)
            ==> is_linkable(linked))
}

/// The replies are the hashes of entries.
pub open spec fn are_entry_hashes(replies: Seq<Seq<char>>) -> bool {
    forall|i: int| 0 <= i < replies.len() ==> is_entry_hash(#[trigger] replies[i])
}

/// The text of the type in the previous definition of a field is read back.
spec fn type_reads_back(diff: FieldDiffModel) -> bool {
    diff.previous matches Some(view) ==> read_type(field_type_text(view.field_type)) == Some(
        view.field_type,
    )
}

/// The parts of a diff only have valid links.
spec fn parts_have_valid_links(diff: SchemaDiffModel) -> bool {
    forall|part: SchemaDiffModel| #[trigger] is_part(diff, part) ==> has_valid_links(part)
}

/// The types that the execution of a schema left behind are read back.
proof fn lemma_types_read_back(
    diff: SchemaDiffModel,
    replies: Seq<Seq<char>>,
    part: SchemaDiffModel,
)
    requires
        parts_have_valid_links(diff),
        are_entry_hashes(replies),
        run_schema(diff, replies).view_ids is Some,
        is_part(settled_schema(diff, replies), part),
    ensures
        types_read_back(part),
    decreases diff,
{
    let settled = settled_schema(diff, replies);
    assert(is_part(diff, diff));
    assert forall|i: int| 0 <= i < diff.fields.len() implies are_links_valid(
        #[trigger] diff.fields[i],
    ) by {
        if let FieldTypeDiffModel::Relation(_, linked) = diff.fields[i].field_type {
            assert forall|inner: SchemaDiffModel| #[trigger]
                is_part(linked, inner) implies has_valid_links(inner) by {
                assert(is_part_of_field(diff.fields[i], inner));
                assert(is_part(diff, inner));
            }
        }
    }
    lemma_field_types_read_back(diff.fields, replies);
    if settled == part {
        assert forall|i: int| 0 <= i < part.fields.len() implies ((
        #[trigger] part.fields[i]).previous matches Some(view) ==> read_type(
            field_type_text(view.field_type),
        ) == Some(view.field_type)) by {
            assert(type_reads_back(settled_fields(diff.fields, replies)[i]));
        }
    } else {
        assert(is_part_of_fields(settled_fields(diff.fields, replies), part));
    }
}

/// The field only has a valid link, and so do all schemas that it depends on.
spec fn are_links_valid(diff: FieldDiffModel) -> bool {
    diff.field_type matches FieldTypeDiffModel::Relation(_, linked) ==> is_linkable(linked)
        && parts_have_valid_links(linked)
}

proof fn lemma_field_types_read_back(diffs: Seq<FieldDiffModel>, replies: Seq<Seq<char>>)
    requires
        forall|i: int| 0 <= i < diffs.len() ==> are_links_valid(#[trigger] diffs[i]),
        are_entry_hashes(replies),
        run_fields(diffs, replies).view_ids is Some,
    ensures
        settled_fields(diffs, replies).len() == diffs.len(),
        forall|i: int|
            0 <= i < diffs.len() ==> type_reads_back(#[trigger] settled_fields(diffs, replies)[i]),
        forall|part: SchemaDiffModel| #[trigger]
            is_part_of_fields(settled_fields(diffs, replies), part) ==> types_read_back(part),
    decreases diffs,
{
    if diffs.len() > 0 {
        let front_diffs = diffs.drop_last();
        let last_diff = diffs[diffs.len() - 1];
        let front = run_fields(front_diffs, replies);
        let left = replies_behind(front, replies);
        let settled = settled_fields(diffs, replies);
        let settled_front = settled_fields(front_diffs, replies);
        lemma_run_fields(front_diffs, replies);
        assert forall|i: int| 0 <= i < front_diffs.len() implies are_links_valid(
            #[trigger] front_diffs[i],
        ) by {
            assert(front_diffs[i] == diffs[i]);
        }
        assert forall|i: int| 0 <= i < left.len() implies is_entry_hash(#[trigger] left[i]) by {
            assert(is_entry_hash(replies[front.operations.len() + i]));
        }
        lemma_field_types_read_back(front_diffs, replies);
        assert(are_links_valid(last_diff));
        lemma_field_type_reads_back(last_diff, left);
        assert forall|i: int| 0 <= i < diffs.len() implies type_reads_back(
            #[trigger] settled[i],
        ) by {
            if i < front_diffs.len() {
                assert(settled[i] == settled_front[i]);
            }
        }
        assert forall|part: SchemaDiffModel| #[trigger]
            is_part_of_fields(settled, part) implies types_read_back(part) by {
            let i = choose|i: int|
                0 <= i < settled.len() && is_part_of_field(#[trigger] settled[i], part);
            if i < front_diffs.len() {
                assert(settled[i] == settled_front[i]);
                assert(is_part_of_fields(settled_front, part));
            } else {
                assert(settled[i] == settled_field(last_diff, left));
            }
        }
    }
}

proof fn lemma_field_type_reads_back(diff: FieldDiffModel, replies: Seq<Seq<char>>)
    requires
        are_links_valid(diff),
        are_entry_hashes(replies),
        run_field(diff, replies).view_ids is Some,
    ensures
        type_reads_back(settled_field(diff, replies)),
        forall|part: SchemaDiffModel| #[trigger]
            is_part_of_field(settled_field(diff, replies), part) ==> types_read_back(part),
    decreases diff,
{
    let settled = settled_field(diff, replies);
    let field_type = (settled.previous->0).field_type;
    match diff.field_type {
        FieldTypeDiffModel::Field(_) => {
            lemma_readable_type_reads_back(field_type);
        },
        FieldTypeDiffModel::Relation(_, schema) => {
            let linked = run_schema(schema, replies);
            lemma_run_schema(schema, replies);
            let count = run_fields(schema.fields, replies).operations.len() as int;
            if linked.operations.len() > count {
                assert(linked.view_ids == Some(seq![replies[count]]));
                assert(is_entry_hash(replies[count]));
                lemma_hash_is_view_id(replies[count]);
            }
            lemma_readable_type_reads_back(field_type);
            assert forall|part: SchemaDiffModel| #[trigger]
                is_part_of_field(settled, part) implies types_read_back(part) by {
                lemma_types_read_back(schema, replies, part);
            }
        },
    }
}

/// The types in the definitions that an execution left behind are read back: where fields only link
/// to schemas with valid names and view ids, and every reply is the hash of an entry, p2panda reads
/// each type from the text that was written of it.
pub proof fn law_types_left_behind_read_back(
    plans: Seq<SchemaDiffModel>,
    replies: Seq<Seq<char>>,
    part: SchemaDiffModel,
)
    requires
        forall|inner: SchemaDiffModel| #[trigger]
            is_part_of_plan(plans, inner) ==> has_valid_links(inner),
        are_entry_hashes(replies),
        run_plans(plans, replies).view_ids is Some,
        is_part_of_plan(settled_plans(plans, replies), part),
    ensures
        types_read_back(part),
    decreases plans.len(),
{
    let front_plans = plans.drop_last();
    let front = run_plans(front_plans, replies);
    let left = replies_behind(front, replies);
    let settled = settled_plans(plans, replies);
    let settled_front = settled_plans(front_plans, replies);
    lemma_run_plans(front_plans, replies);
    lemma_settled_plans(plans, replies);
    lemma_settled_plans(front_plans, replies);
    let i = choose|i: int| 0 <= i < settled.len() && is_part(#[trigger] settled[i], part);
    if i < settled.len() - 1 {
        assert(settled_front[i] == settled[i]);
        assert forall|inner: SchemaDiffModel| #[trigger]
            is_part_of_plan(front_plans, inner) implies has_valid_links(inner) by {
            let k = choose|k: int|
                0 <= k < front_plans.len() && is_part(#[trigger] front_plans[k], inner);
            assert(is_part(plans[k], inner));
            assert(is_part_of_plan(plans, inner));
        }
        law_types_left_behind_read_back(front_plans, replies, part);
    } else {
        let last = plans[plans.len() - 1];
        assert(settled[i] == settled_schema(last, left));
        assert forall|inner: SchemaDiffModel| #[trigger]
            is_part(last, inner) implies has_valid_links(inner) by {
            assert(is_part(plans[plans.len() - 1], inner));
            assert(is_part_of_plan(plans, inner));
        }
        assert forall|k: int| 0 <= k < left.len() implies is_entry_hash(#[trigger] left[k]) by {
            assert(is_entry_hash(replies[front.operations.len() + k]));
        }
        lemma_types_read_back(last, left, part);
    }
}

/// The view ids are those of all the schema definitions that the operations wrote.
pub open spec fn are_written_definitions(
    ids: Seq<Seq<char>>,
    operations: Seq<OperationModel>,
    replies: Seq<Seq<char>>,
) -> bool {
    forall|id: Seq<char>| #[trigger]
        ids.contains(id) <==> exists|index: int| #[trigger]
            defines_schema(operations, replies, index, id)
}

/// The names of fields.
pub open spec fn field_names(diffs: Seq<FieldDiffModel>) -> Seq<Seq<char>> {
    diffs.map_values(|diff: FieldDiffModel| diff.name)
}

/// The previous schema has the name, the description and the field names of a diff.
pub open spec fn is_schema_of(schema: PreviousSchemaModel, diff: SchemaDiffModel) -> bool {
    &&& schema.schema_view.name == diff.name
    &&& schema.schema_view.description == diff.description
    &&& names_of(schema.schema_field_views) == field_names(diff.fields)
}

/// The settled diff of a new schema makes up that schema.
proof fn lemma_settled_new(diff: SchemaDiffModel, settled: SchemaDiffModel)
    requires
        is_new(diff),
        is_settled_schema(settled, diff),
    ensures
        is_schema_of(previous_schema(settled), diff),
{
    let r = choose|r: Seq<Seq<char>>| settled == #[trigger] settled_schema(diff, r);
    lemma_settled_field_list(diff.fields, r);
    let names = names_of(previous_schema(settled).schema_field_views);
    assert forall|i: int| 0 <= i < diff.fields.len() implies names[i] == field_names(
        diff.fields,
    )[i] by {
        assert(is_settled_field(settled_fields(diff.fields, r)[i], diff.fields[i]));
        assert(is_field_new(diff.fields[i]));
    }
    assert(names =~= field_names(diff.fields));
}

/// Commits give back the schemas: where plans of new schemas were executed to their end, the
/// documents hold what the operations wrote, and schemas of one name are the same and valid, schemas
/// can be read from all the written definitions. They are exactly the planned ones, nested ones
/// included, and have the names, the descriptions and, in their order, the field names of the plans.
pub proof fn law_commits_give_back_schemas(
    plans: Seq<SchemaDiffModel>,
    replies: Seq<Seq<char>>,
    documents: Documents,
    ids: Seq<Seq<char>>,
)
    requires
        forall|i: int| 0 <= i < plans.len() ==> is_new(#[trigger] plans[i]),
        forall|left: SchemaDiffModel, right: SchemaDiffModel|
            #![trigger is_part_of_plan(plans, left), is_part_of_plan(plans, right)]
            is_part_of_plan(plans, left) && is_part_of_plan(plans, right) && left.name == right.name
                ==> left == right,
        forall|part: SchemaDiffModel| #[trigger]
            is_part_of_plan(plans, part) ==> is_valid_schema(
                part.name,
                part.description,
                field_names(part.fields),
            ),
        run_plans(plans, replies).view_ids is Some,
        are_entry_hashes(replies),
        hold_written(documents, run_plans(plans, replies).operations, replies),
        are_written_definitions(ids, run_plans(plans, replies).operations, replies),
    ensures
        read_schemas(documents, ids) is Some,
        forall|name: Seq<char>| #[trigger]
            (read_schemas(documents, ids)->0).contains_key(name) <==> is_planned(plans, name),
        forall|diff: SchemaDiffModel| #[trigger]
            is_part_of_plan(plans, diff) ==> is_schema_of(
                (read_schemas(documents, ids)->0)[diff.name],
                diff,
            ),
{
    let operations = run_plans(plans, replies).operations;
    let settled = settled_plans(plans, replies);
    let schemas = read_schemas(documents, ids)->0;
    assert forall|part: SchemaDiffModel| #[trigger] is_part_of_plan(
        plans,
        part,
    ) implies has_valid_links(part) by {
        lemma_part_of_plan_is_new(plans, part);
        lemma_new_links_are_valid(plans, part);
    }
    assert forall|part: SchemaDiffModel| #[trigger]
        is_part_of_plan(settled, part) implies types_read_back(part) by {
        law_types_left_behind_read_back(plans, replies, part);
    }
    assert forall|i: int| 0 <= i < plans.len() implies hold_previous_schema(
        documents,
        #[trigger] plans[i],
    ) by {
        lemma_new_has_no_documents(documents, plans[i]);
    }
    // Every definition is that of a planned schema
    assert forall|id: Seq<char>| #[trigger] ids.contains(id) implies exists|
        diff: SchemaDiffModel,
    | #[trigger]
        is_part_of_plan(plans, diff) && read_schema(documents, id) is Some && is_schema_of(
            read_schema(documents, id)->0,
            diff,
        ) by {
        let index = choose|index: int| #[trigger] defines_schema(operations, replies, index, id);
        let part = lemma_written_by_plans(plans, replies, index, id);
        lemma_left_behind_is_read(documents, plans, replies, part);
        let diff = lemma_part_of_settled_plans(plans, replies, part);
        lemma_part_of_plan_is_new(plans, diff);
        lemma_settled_new(diff, part);
    }
    lemma_read_each_schema(documents, ids);
    assert forall|i: int| 0 <= i < ids.len() implies read_schema(
        documents,
        #[trigger] ids[i],
    ) is Some by {
        assert(ids.contains(ids[i]));
    }
    // Every planned schema has a definition
    assert forall|diff: SchemaDiffModel| #[trigger] is_part_of_plan(plans, diff) implies exists|
        i: int,
    | 0 <= i < ids.len() && is_read_as(documents, #[trigger] ids[i], diff.name) by {
        let part = lemma_settled_part_of_plans(plans, replies, diff);
        let index = lemma_new_plans_are_written(plans, replies, part);
        let id = (part.previous->0).view_id;
        assert(ids.contains(id));
        lemma_left_behind_is_read(documents, plans, replies, part);
        lemma_part_of_plan_is_new(plans, diff);
        lemma_settled_new(diff, part);
        assert(is_read_as(documents, ids[ids.index_of(id)], diff.name));
    }
    assert forall|name: Seq<char>| #[trigger]
        schemas.contains_key(name) <==> is_planned(plans, name) by {
        lemma_read_schemas(documents, ids, schemas, name);
        if schemas.contains_key(name) {
            let i = choose|i: int|
                0 <= i < ids.len() && is_read_as(documents, #[trigger] ids[i], name);
            assert(ids.contains(ids[i]));
        }
        if is_planned(plans, name) {
            let diff = choose|diff: SchemaDiffModel| #[trigger]
                is_part_of_plan(plans, diff) && diff.name == name;
            assert(is_part_of_plan(plans, diff));
        }
    }
    assert forall|diff: SchemaDiffModel| #[trigger]
        is_part_of_plan(plans, diff) implies is_schema_of(schemas[diff.name], diff) by {
        let name = diff.name;
        assert(is_planned(plans, name));
        assert(schemas.contains_key(name));
        lemma_read_schemas(documents, ids, schemas, name);
        let i = choose|i: int|
            0 <= i < ids.len() && is_read_as(documents, #[trigger] ids[i], name) && read_schema(
                documents,
                ids[i],
            ) == Some(schemas[name]);
        assert(ids.contains(ids[i]));
        let other = choose|other: SchemaDiffModel| #[trigger]
            is_part_of_plan(plans, other) && read_schema(documents, ids[i]) is Some
                && is_schema_of(read_schema(documents, ids[i])->0, other);
        assert(other == diff);
    }
}

/// A part of a part is one of the plan.
proof fn lemma_part_of_part(whole: SchemaDiffModel, part: SchemaDiffModel, inner: SchemaDiffModel)
    requires
        is_part(whole, part),
        is_part(part, inner),
    ensures
        is_part(whole, inner),
    decreases whole,
{
    if whole != part {
        let i = choose|i: int|
            0 <= i < whole.fields.len() && is_part_of_field(#[trigger] whole.fields[i], part);
        let linked = whole.fields[i].field_type->Relation_1;
        assert(decreases_to!(whole => whole.fields));
        assert(decreases_to!(whole.fields => whole.fields[i]));
        lemma_part_of_part(linked, part, inner);
        assert(is_part_of_field(whole.fields[i], inner));
        assert(is_part_of_fields(whole.fields, inner));
    }
}

/// A schema that a part of the plan links to is a part of the plan too.
proof fn lemma_linked_is_part(
    plans: Seq<SchemaDiffModel>,
    part: SchemaDiffModel,
    index: int,
    linked: SchemaDiffModel,
)
    requires
        is_part_of_plan(plans, part),
        0 <= index < part.fields.len(),
        part.fields[index].field_type matches FieldTypeDiffModel::Relation(_, schema) && schema
            == linked,
    ensures
        is_part_of_plan(plans, linked),
{
    let i = choose|i: int| 0 <= i < plans.len() && is_part(#[trigger] plans[i], part);
    assert(is_part(linked, linked));
    assert(is_part_of_field(part.fields[index], linked));
    assert(is_part_of_fields(part.fields, linked));
    lemma_part_of_part(plans[i], part, linked);
}

/// A part of new plans, all with valid names, has valid links.
proof fn lemma_new_links_are_valid(plans: Seq<SchemaDiffModel>, part: SchemaDiffModel)
    requires
        forall|inner: SchemaDiffModel| #[trigger]
            is_part_of_plan(plans, inner) ==> is_valid_schema_name(inner.name),
        is_part_of_plan(plans, part),
        is_new(part),
    ensures
        has_valid_links(part),
{
    assert forall|i: int| 0 <= i < part.fields.len() implies ((
    #[trigger] part.fields[i]).field_type matches FieldTypeDiffModel::Relation(_, linked)
        ==> is_linkable(linked)) by {
        if let FieldTypeDiffModel::Relation(_, linked) = part.fields[i].field_type {
            lemma_linked_is_part(plans, part, i, linked);
            assert(is_field_new(part.fields[i]));
        }
    }
}

proof fn lemma_part_of_plan_is_new(plans: Seq<SchemaDiffModel>, part: SchemaDiffModel)
    requires
        forall|i: int| 0 <= i < plans.len() ==> is_new(#[trigger] plans[i]),
        is_part_of_plan(plans, part),
    ensures
        is_new(part),
{
    let i = choose|i: int| 0 <= i < plans.len() && is_part(#[trigger] plans[i], part);
    lemma_part_is_new(plans[i], part);
}

proof fn lemma_part_of_settled_plans(
    plans: Seq<SchemaDiffModel>,
    replies: Seq<Seq<char>>,
    settled: SchemaDiffModel,
) -> (part: SchemaDiffModel)
    requires
        is_part_of_plan(settled_plans(plans, replies), settled),
    ensures
        is_part_of_plan(plans, part),
        is_settled_schema(settled, part),
{
    let all = settled_plans(plans, replies);
    lemma_settled_plans(plans, replies);
    let i = choose|i: int| 0 <= i < all.len() && is_part(#[trigger] all[i], settled);
    assert(is_settled_schema(all[i], plans[i]));
    let r = choose|r: Seq<Seq<char>>| all[i] == #[trigger] settled_schema(plans[i], r);
    let part = lemma_settled_part(plans[i], r, settled);
    assert(is_part(plans[i], part));
    part
}

proof fn lemma_settled_part_of_plans(
    plans: Seq<SchemaDiffModel>,
    replies: Seq<Seq<char>>,
    part: SchemaDiffModel,
) -> (settled: SchemaDiffModel)
    requires
        is_part_of_plan(plans, part),
    ensures
        is_part_of_plan(settled_plans(plans, replies), settled),
        is_settled_schema(settled, part),
{
    let all = settled_plans(plans, replies);
    lemma_settled_plans(plans, replies);
    let i = choose|i: int| 0 <= i < plans.len() && is_part(#[trigger] plans[i], part);
    assert(is_settled_schema(all[i], plans[i]));
    let r = choose|r: Seq<Seq<char>>| all[i] == #[trigger] settled_schema(plans[i], r);
    let settled = lemma_part_settled(plans[i], r, part);
    assert(is_part(all[i], settled));
    settled
}

/// Schemas that are read from documents are kept under their own names, and their definitions have
/// the view ids under which they were read.
pub proof fn law_read_schemas_are_keyed(documents: Documents, ids: Seq<Seq<char>>)
    ensures
        read_schemas(documents, ids) matches Some(schemas) ==> is_keyed_by_name(schemas) && forall|
            name: Seq<char>,
        | #[trigger]
            schemas.contains_key(name) ==> ids.contains(schemas[name].schema_view.view_id),
    decreases ids.len(),
{
    if ids.len() > 0 {
        let front = ids.drop_last();
        law_read_schemas_are_keyed(documents, front);
        if let Some(schemas) = read_schemas(documents, ids) {
            assert forall|name: Seq<char>| #[trigger] schemas.contains_key(name) implies ids.contains(
                schemas[name].schema_view.view_id,
            ) by {
                let id = schemas[name].schema_view.view_id;
                if front.contains(id) {
                    assert(ids[front.index_of(id)] == id);
                } else {
                    assert(ids[ids.len() - 1] == id);
                }
            }
        }
    }
}

/// The previous versions in a diff have the names of the current ones.
pub open spec fn has_own_names(diff: SchemaDiffModel) -> bool {
    &&& diff.previous matches Some(view) ==> view.name == diff.name
    &&& forall|i: int|
        0 <= i < diff.fields.len() ==> ((#[trigger] diff.fields[i]).previous matches Some(view)
            ==> view.name == diff.fields[i].name)
}

proof fn lemma_found_field_view(views: Seq<SchemaFieldViewModel>, name: Seq<char>)
    ensures
        find_field_view(views, name) matches Some(view) ==> view.name == name,
    decreases views.len(),
{
    if views.len() > 0 && views[0].name != name {
        lemma_found_field_view(views.skip(1), name);
    }
}

proof fn lemma_diff_has_own_names(
    previous: Map<Seq<char>, PreviousSchemaModel>,
    current: Seq<CurrentSchemaModel>,
    diff: SchemaDiffModel,
)
    requires
        is_keyed_by_name(previous),
        is_schema_diff(previous, current, diff.name, diff),
    ensures
        has_own_names(diff),
{
    let schema = find_schema(current, diff.name)->0;
    assert forall|i: int| 0 <= i < diff.fields.len() implies (
    (#[trigger] diff.fields[i]).previous matches Some(view) ==> view.name
        == diff.fields[i].name) by {
        assert(is_field_diff(previous, current, diff.name, schema.fields[i], diff.fields[i]));
        if previous.contains_key(diff.name) {
            lemma_found_field_view(
                previous[diff.name].schema_field_views,
                diff.fields[i].name,
            );
        }
    }
}

proof fn lemma_settled_has_own_names(diff: SchemaDiffModel, settled: SchemaDiffModel)
    requires
        has_own_names(diff),
        is_settled_schema(settled, diff),
    ensures
        has_own_names(settled),
        settled.name == diff.name,
        field_names(settled.fields) == field_names(diff.fields),
{
    let r = choose|r: Seq<Seq<char>>| settled == #[trigger] settled_schema(diff, r);
    lemma_settled_field_list(diff.fields, r);
    assert forall|i: int| 0 <= i < settled.fields.len() implies (
    (#[trigger] settled.fields[i]).previous matches Some(view) ==> view.name
        == settled.fields[i].name) && settled.fields[i].name == diff.fields[i].name by {
        assert(settled.fields[i] == settled_fields(diff.fields, r)[i]);
        assert(is_settled_field(settled.fields[i], diff.fields[i]));
        assert(diff.fields[i].previous matches Some(view) ==> view.name == diff.fields[i].name);
    }
    assert(field_names(settled.fields) =~= field_names(diff.fields));
}

/// The names of the fields of a diff are those of the current schema, and so differ.
proof fn lemma_diff_field_names_are_distinct(
    previous: Map<Seq<char>, PreviousSchemaModel>,
    current: Seq<CurrentSchemaModel>,
    diff: SchemaDiffModel,
)
    requires
        field_names_are_distinct(current),
        is_schema_diff(previous, current, diff.name, diff),
    ensures
        field_names(diff.fields).no_duplicates(),
{
    let schema = find_schema(current, diff.name)->0;
    lemma_find_schema(current, diff.name);
    let n = choose|n: int|
        0 <= n < current.len() && #[trigger] current[n] == schema && schema.name == diff.name;
    let names = field_names(diff.fields);
    assert forall|i: int, j: int| 0 <= i < j < names.len() implies names[i] != names[j] by {
        assert(is_field_diff(previous, current, diff.name, schema.fields[i], diff.fields[i]));
        assert(is_field_diff(previous, current, diff.name, schema.fields[j], diff.fields[j]));
        assert(current[n].fields[i].0 != current[n].fields[j].0);
    }
}

/// With distinct names, every previous field definition is found by its name.
proof fn lemma_find_previous_view(diffs: Seq<FieldDiffModel>, index: int)
    requires
        field_names(diffs).no_duplicates(),
        forall|i: int|
            0 <= i < diffs.len() ==> ((#[trigger] diffs[i]).previous matches Some(view)
                && view.name == diffs[i].name),
        0 <= index < diffs.len(),
    ensures
        find_field_view(previous_views(diffs), diffs[index].name) == diffs[index].previous,
    decreases diffs.len(),
{
    let views = previous_views(diffs);
    let rest = diffs.skip(1);
    assert(diffs[0].previous matches Some(view) && view.name == diffs[0].name);
    assert(views[0] == diffs[0].previous->0);
    if index > 0 {
        assert(field_names(diffs)[0] != field_names(diffs)[index]);
        assert(views.skip(1) =~= previous_views(rest));
        assert(field_names(rest) =~= field_names(diffs).skip(1));
        assert forall|i: int, j: int| 0 <= i < j < rest.len() implies field_names(rest)[i]
            != field_names(rest)[j] by {
            assert(field_names(diffs)[i + 1] != field_names(diffs)[j + 1]);
        }
        assert(field_names(rest).no_duplicates());
        assert forall|i: int| 0 <= i < rest.len() implies (
        (#[trigger] rest[i]).previous matches Some(view) && view.name == rest[i].name) by {
            assert(rest[i] == diffs[i + 1]);
        }
        lemma_find_previous_view(rest, index - 1);
        assert(rest[index - 1] == diffs[index]);
    }
}

/// The schemas hold the previous versions of each part of a diff.
spec fn hold_parts(schemas: Map<Seq<char>, PreviousSchemaModel>, diff: SchemaDiffModel) -> bool {
    forall|part: SchemaDiffModel| #[trigger]
        is_part(diff, part) ==> hold_own_versions(schemas, part)
}

/// The schemas hold the previous versions of a schema and its fields.
spec fn hold_own_versions(
    schemas: Map<Seq<char>, PreviousSchemaModel>,
    diff: SchemaDiffModel,
) -> bool {
    &&& schemas.contains_key(diff.name)
    &&& diff.previous == Some(schemas[diff.name].schema_view)
    &&& forall|i: int|
        0 <= i < diff.fields.len() ==> previous_field(
            schemas,
            diff.name,
            (#[trigger] diff.fields[i]).name,
        ) == diff.fields[i].previous
}

proof fn lemma_hold_parts(schemas: Map<Seq<char>, PreviousSchemaModel>, diff: SchemaDiffModel)
    requires
        hold_parts(schemas, diff),
    ensures
        hold_schema(schemas, diff),
    decreases diff,
{
    assert(is_part(diff, diff));
    assert forall|i: int| 0 <= i < diff.fields.len() implies hold_field(
        schemas,
        diff.name,
        #[trigger] diff.fields[i],
    ) by {
        if let FieldTypeDiffModel::Relation(_, linked) = diff.fields[i].field_type {
            assert forall|part: SchemaDiffModel| #[trigger]
                is_part(linked, part) implies hold_own_versions(schemas, part) by {
                assert(is_part_of_field(diff.fields[i], part));
                assert(is_part(diff, part));
            }
            assert(decreases_to!(diff => diff.fields));
            assert(decreases_to!(diff.fields => diff.fields[i]));
            lemma_hold_parts(schemas, linked);
        }
    }
}

/// The view ids hold that of every schema definition which was left behind, and of no other
/// definition under the name of one of these schemas.
pub open spec fn are_definitions_of(
    ids: Seq<Seq<char>>,
    documents: Documents,
    settled: Seq<SchemaDiffModel>,
) -> bool {
    &&& forall|part: SchemaDiffModel| #[trigger]
        is_part_of_plan(settled, part) ==> ids.contains((part.previous->0).view_id)
    &&& forall|id: Seq<char>, part: SchemaDiffModel|
        #![trigger ids.contains(id), is_part_of_plan(settled, part)]
        ids.contains(id) && is_part_of_plan(settled, part) && is_read_as(documents, id, part.name)
            ==> id == (part.previous->0).view_id
}

/// What an execution wrote, read back, holds the versions that it left behind.
pub proof fn law_documents_hold_what_was_left_behind(
    previous: Map<Seq<char>, PreviousSchemaModel>,
    current: Seq<CurrentSchemaModel>,
    plan: Seq<SchemaDiffModel>,
    replies: Seq<Seq<char>>,
    documents: Documents,
    ids: Seq<Seq<char>>,
    schemas: Map<Seq<char>, PreviousSchemaModel>,
    index: int,
)
    requires
        is_keyed_by_name(previous),
        field_names_are_distinct(current),
        is_plan(previous, current, plan),
        forall|part: SchemaDiffModel| #[trigger]
            is_part_of_plan(plan, part) ==> has_valid_links(part),
        run_plans(plan, replies).view_ids is Some,
        are_entry_hashes(replies),
        hold_previous_plans(documents, plan),
        hold_written(documents, run_plans(plan, replies).operations, replies),
        are_definitions_of(ids, documents, settled_plans(plan, replies)),
        read_schemas(documents, ids) == Some(schemas),
        0 <= index < plan.len(),
    ensures
        hold_schema(schemas, settled_plans(plan, replies)[index]),
{
    let settled = settled_plans(plan, replies);
    lemma_settled_plans(plan, replies);
    lemma_read_each_schema(documents, ids);
    assert forall|part: SchemaDiffModel| #[trigger]
        is_part(settled[index], part) implies hold_own_versions(schemas, part) by {
        assert(is_part_of_plan(settled, part));
        let diff = lemma_part_of_settled_plans(plan, replies, part);
        lemma_part_of_plan_is_diff(previous, current, plan, diff);
        lemma_diff_has_own_names(previous, current, diff);
        lemma_settled_has_own_names(diff, part);
        lemma_diff_field_names_are_distinct(previous, current, diff);
        law_types_left_behind_read_back(plan, replies, part);
        lemma_left_behind_is_read(documents, plan, replies, part);
        let id = (part.previous->0).view_id;
        assert(ids.contains(id));
        assert(read_schema(documents, ids[ids.index_of(id)]) is Some);
        lemma_read_schemas(documents, ids, schemas, part.name);
        assert(is_read_as(documents, ids[ids.index_of(id)], part.name));
        assert(schemas.contains_key(part.name));
        let i = choose|i: int|
            0 <= i < ids.len() && is_read_as(documents, #[trigger] ids[i], part.name)
                && read_schema(documents, ids[i]) == Some(schemas[part.name]);
        assert(ids.contains(ids[i]));
        assert(ids[i] == id);
        assert(schemas[part.name] == previous_schema(part));
        assert forall|k: int| 0 <= k < part.fields.len() implies (
        (#[trigger] part.fields[k]).previous matches Some(view) && view.name
            == part.fields[k].name) by {
            lemma_each_field_is_current(part.fields, k);
        }
        assert forall|k: int| 0 <= k < part.fields.len() implies previous_field(
            schemas,
            part.name,
            (#[trigger] part.fields[k]).name,
        ) == part.fields[k].previous by {
            lemma_find_previous_view(part.fields, k);
        }
    }
    lemma_hold_parts(schemas, settled[index]);
}

proof fn lemma_part_of_plan_is_diff(
    previous: Map<Seq<char>, PreviousSchemaModel>,
    current: Seq<CurrentSchemaModel>,
    plan: Seq<SchemaDiffModel>,
    part: SchemaDiffModel,
)
    requires
        is_plan(previous, current, plan),
        is_part_of_plan(plan, part),
    ensures
        is_schema_diff(previous, current, part.name, part),
{
    let i = choose|i: int| 0 <= i < plan.len() && is_part(#[trigger] plan[i], part);
    assert(is_schema_diff(previous, current, plan[i].name, plan[i]));
    lemma_part_is_diff(previous, current, plan[i].name, plan[i], part);
}

/// Updating twice is like updating once: where a plan was executed to its end and the documents hold
/// what its operations wrote, the next plan, made from the schemas that are read from these
/// documents, needs no operation.
pub proof fn law_written_documents_need_no_update(
    previous: Map<Seq<char>, PreviousSchemaModel>,
    current: Seq<CurrentSchemaModel>,
    plan: Seq<SchemaDiffModel>,
    replies: Seq<Seq<char>>,
    documents: Documents,
    ids: Seq<Seq<char>>,
    schemas: Map<Seq<char>, PreviousSchemaModel>,
    next_plan: Seq<SchemaDiffModel>,
    later: Seq<Seq<char>>,
)
    requires
        is_keyed_by_name(previous),
        field_names_are_distinct(current),
        is_plan(previous, current, plan),
        forall|part: SchemaDiffModel| #[trigger]
            is_part_of_plan(plan, part) ==> has_valid_links(part),
        run_plans(plan, replies).view_ids is Some,
        are_entry_hashes(replies),
        hold_previous_plans(documents, plan),
        hold_written(documents, run_plans(plan, replies).operations, replies),
        are_definitions_of(ids, documents, settled_plans(plan, replies)),
        read_schemas(documents, ids) == Some(schemas),
        is_plan(schemas, current, next_plan),
    ensures
        run_plans(next_plan, later).operations.len() == 0,
        run_plans(next_plan, later).view_ids == run_plans(plan, replies).view_ids,
{
    assert forall|i: int| 0 <= i < plan.len() implies hold_schema(
        schemas,
        #[trigger] settled_plans(plan, replies)[i],
    ) by {
        law_documents_hold_what_was_left_behind(
            previous,
            current,
            plan,
            replies,
            documents,
            ids,
            schemas,
            i,
        );
    }
    law_second_update_commits_nothing(
        previous,
        current,
        plan,
        replies,
        schemas,
        next_plan,
        later,
    );
}

/// Against no previous schemas, every diff is new.
pub(crate) proof fn lemma_first_diff_is_new(
    current: Seq<CurrentSchemaModel>,
    name: Seq<char>,
    diff: SchemaDiffModel,
)
    requires
        is_schema_diff(Map::empty(), current, name, diff),
    ensures
        is_new(diff),
    decreases diff,
{
    let schema = find_schema(current, name)->0;
    assert forall|i: int| 0 <= i < diff.fields.len() implies is_field_new(
        #[trigger] diff.fields[i],
    ) by {
        assert(is_field_diff(Map::empty(), current, name, schema.fields[i], diff.fields[i]));
        if let FieldTypeDiffModel::Relation(_, linked) = diff.fields[i].field_type {
            assert(decreases_to!(diff => diff.fields));
            assert(decreases_to!(diff.fields => diff.fields[i]));
            lemma_first_diff_is_new(current, linked_name(schema.fields[i].1)->0, linked);
        }
    }
}

/// After a first update nothing is left to do: where the first plan ever was executed to its end and
/// the documents hold what its operations wrote, the next plan, made from the schemas that are read
/// from all the written definitions, needs no operation. Every schema is to be left behind once: a
/// schema that several others relate to is executed with each of them.
pub proof fn law_first_update_needs_no_second(
    current: Seq<CurrentSchemaModel>,
    plan: Seq<SchemaDiffModel>,
    replies: Seq<Seq<char>>,
    documents: Documents,
    ids: Seq<Seq<char>>,
    schemas: Map<Seq<char>, PreviousSchemaModel>,
    next_plan: Seq<SchemaDiffModel>,
    later: Seq<Seq<char>>,
)
    requires
        field_names_are_distinct(current),
        is_plan(Map::empty(), current, plan),
        forall|part: SchemaDiffModel| #[trigger]
            is_part_of_plan(plan, part) ==> has_valid_links(part),
        run_plans(plan, replies).view_ids is Some,
        are_entry_hashes(replies),
        hold_written(documents, run_plans(plan, replies).operations, replies),
        forall|left: SchemaDiffModel, right: SchemaDiffModel|
            #[trigger] is_part_of_plan(settled_plans(plan, replies), left)
                && #[trigger] is_part_of_plan(settled_plans(plan, replies), right) && left.name
                == right.name ==> left == right,
        are_written_definitions(ids, run_plans(plan, replies).operations, replies),
        read_schemas(documents, ids) == Some(schemas),
        is_plan(schemas, current, next_plan),
    ensures
        run_plans(next_plan, later).operations.len() == 0,
        run_plans(next_plan, later).view_ids == run_plans(plan, replies).view_ids,
{
    let previous = Map::<Seq<char>, PreviousSchemaModel>::empty();
    let operations = run_plans(plan, replies).operations;
    let settled = settled_plans(plan, replies);
    assert forall|i: int| 0 <= i < plan.len() implies is_new(#[trigger] plan[i])
        && hold_previous_schema(documents, plan[i]) by {
        assert(is_schema_diff(previous, current, plan[i].name, plan[i]));
        lemma_first_diff_is_new(current, plan[i].name, plan[i]);
        lemma_new_has_no_documents(documents, plan[i]);
    }
    assert forall|part: SchemaDiffModel| #[trigger]
        is_part_of_plan(settled, part) implies types_read_back(part) by {
        law_types_left_behind_read_back(plan, replies, part);
    }
    assert forall|part: SchemaDiffModel| #[trigger] is_part_of_plan(
        settled,
        part,
    ) implies ids.contains((part.previous->0).view_id) by {
        let index = lemma_new_plans_are_written(plan, replies, part);
    }
    assert forall|id: Seq<char>, part: SchemaDiffModel|
        #![trigger ids.contains(id), is_part_of_plan(settled, part)]
        ids.contains(id) && is_part_of_plan(settled, part) && is_read_as(
            documents,
            id,
            part.name,
        ) implies id == (part.previous->0).view_id by {
        let index = choose|index: int| #[trigger] defines_schema(operations, replies, index, id);
        let other = lemma_written_by_plans(plan, replies, index, id);
        lemma_left_behind_is_read(documents, plan, replies, other);
        let diff = lemma_part_of_settled_plans(plan, replies, other);
        lemma_part_of_plan_is_diff(previous, current, plan, diff);
        lemma_diff_has_own_names(previous, current, diff);
        lemma_settled_has_own_names(diff, other);
        assert(other == part);
    }
    law_written_documents_need_no_update(
        previous,
        current,
        plan,
        replies,
        documents,
        ids,
        schemas,
        next_plan,
        later,
    );
}

/// After a first update of schemas that do not relate to each other nothing is left to do.
pub proof fn law_first_update_of_unrelated_schemas_needs_no_second(
    current: Seq<CurrentSchemaModel>,
    plan: Seq<SchemaDiffModel>,
    replies: Seq<Seq<char>>,
    documents: Documents,
    ids: Seq<Seq<char>>,
    schemas: Map<Seq<char>, PreviousSchemaModel>,
    next_plan: Seq<SchemaDiffModel>,
    later: Seq<Seq<char>>,
)
    requires
        field_names_are_distinct(current),
        forall|from: Seq<char>, to: Seq<char>| !#[trigger] relates(current, from, to),
        is_plan(Map::empty(), current, plan),
        run_plans(plan, replies).view_ids is Some,
        are_entry_hashes(replies),
        hold_written(documents, run_plans(plan, replies).operations, replies),
        are_written_definitions(ids, run_plans(plan, replies).operations, replies),
        read_schemas(documents, ids) == Some(schemas),
        is_plan(schemas, current, next_plan),
    ensures
        run_plans(next_plan, later).operations.len() == 0,
        run_plans(next_plan, later).view_ids == run_plans(plan, replies).view_ids,
{
    let previous = Map::<Seq<char>, PreviousSchemaModel>::empty();
    let settled = settled_plans(plan, replies);
    lemma_settled_plans(plan, replies);
    assert forall|part: SchemaDiffModel| #[trigger] is_part_of_plan(
        plan,
        part,
    ) implies has_valid_links(part) by {
        lemma_part_of_plan_is_diff(previous, current, plan, part);
        lemma_unrelated_diff(previous, current, part);
    }
    assert forall|i: int| 0 <= i < settled.len() implies (#[trigger] settled[i]).name
        == plan[i].name && are_fields_unrelated(settled[i].fields) by {
        assert(is_settled_schema(settled[i], plan[i]));
        assert(is_schema_diff(previous, current, plan[i].name, plan[i]));
        lemma_unrelated_diff(previous, current, plan[i]);
        let r = choose|r: Seq<Seq<char>>| settled[i] == #[trigger] settled_schema(plan[i], r);
        lemma_settled_field_list(plan[i].fields, r);
        assert forall|k: int| 0 <= k < settled[i].fields.len() implies (
        #[trigger] settled[i].fields[k]).field_type is Field by {
            assert(is_settled_field(
                settled_fields(plan[i].fields, r)[k],
                plan[i].fields[k],
            ));
            assert(plan[i].fields[k].field_type is Field);
        }
    }
    assert forall|left: SchemaDiffModel, right: SchemaDiffModel|
        #![trigger is_part_of_plan(settled, left), is_part_of_plan(settled, right)]
        is_part_of_plan(settled, left) && is_part_of_plan(settled, right) && left.name
            == right.name implies left == right by {
        let i = choose|i: int| 0 <= i < settled.len() && is_part(#[trigger] settled[i], left);
        let j = choose|j: int| 0 <= j < settled.len() && is_part(#[trigger] settled[j], right);
        assert(settled[i] == left && settled[j] == right);
        if i < j {
            assert(text_lt(plan[i].name, plan[j].name));
        } else if j < i {
            assert(text_lt(plan[j].name, plan[i].name));
        }
    }
    law_first_update_needs_no_second(
        current,
        plan,
        replies,
        documents,
        ids,
        schemas,
        next_plan,
        later,
    );
}

/// The plans of a valid file are valid: every schema in them has a valid name and description, and no
/// two of its fields have the same name. Where all previous definitions have valid view ids, its
/// fields only have valid links.
pub proof fn law_valid_file_gives_valid_plans(
    file: Seq<(Seq<char>, SchemaDefinitionModel)>,
    previous: Map<Seq<char>, PreviousSchemaModel>,
    plan: Seq<SchemaDiffModel>,
    part: SchemaDiffModel,
)
    requires
        is_valid_file(file),
        forall|name: Seq<char>| #[trigger]
            previous.contains_key(name) ==> is_view_id(previous[name].schema_view.view_id),
        is_plan(previous, current_schemas(file), plan),
        is_part_of_plan(plan, part),
    ensures
        is_valid_schema_name(part.name),
        part.description.len() <= 256,
        field_names(part.fields).no_duplicates(),
        has_valid_links(part),
{
    let current = current_schemas(file);
    lemma_valid_file(file);
    lemma_valid_part(file, previous, plan, part);
    lemma_part_of_plan_is_diff(previous, current, plan, part);
    lemma_diff_field_names_are_distinct(previous, current, part);
    assert forall|i: int| 0 <= i < part.fields.len() implies ((
    #[trigger] part.fields[i]).field_type matches FieldTypeDiffModel::Relation(_, linked)
        ==> is_linkable(linked)) by {
        if let FieldTypeDiffModel::Relation(_, linked) = part.fields[i].field_type {
            lemma_linked_is_part(plan, part, i, linked);
            lemma_valid_part(file, previous, plan, linked);
            lemma_part_of_plan_is_diff(previous, current, plan, linked);
        }
    }
}

proof fn lemma_valid_part(
    file: Seq<(Seq<char>, SchemaDefinitionModel)>,
    previous: Map<Seq<char>, PreviousSchemaModel>,
    plan: Seq<SchemaDiffModel>,
    part: SchemaDiffModel,
)
    requires
        is_valid_file(file),
        is_plan(previous, current_schemas(file), plan),
        is_part_of_plan(plan, part),
    ensures
        is_valid_schema_name(part.name),
        part.description.len() <= 256,
{
    let current = current_schemas(file);
    lemma_part_of_plan_is_diff(previous, current, plan, part);
    let schema = find_schema(current, part.name)->0;
    lemma_find_schema(current, part.name);
    let n = choose|n: int|
        0 <= n < current.len() && #[trigger] current[n] == schema && schema.name == part.name;
    assert(is_valid_entry(file[n]));
}

/// The previous schema has the name, the description and the field names of a current one.
pub open spec fn is_version_of(schema: PreviousSchemaModel, current: CurrentSchemaModel) -> bool {
    &&& schema.schema_view.name == current.name
    &&& schema.schema_view.description == current.description
    &&& names_of(schema.schema_field_views) == current_field_names(current)
}

/// The previous schema has the name, the description and, in their order, the field names of an entry
/// of the schema file.
pub open spec fn is_version_of_entry(
    schema: PreviousSchemaModel,
    entry: (Seq<char>, SchemaDefinitionModel),
) -> bool {
    &&& schema.schema_view.name == entry.0
    &&& schema.schema_view.description == entry.1.description
    &&& schema.schema_field_views.len() == entry.1.fields.len()
    &&& forall|i: int|
        0 <= i < entry.1.fields.len() ==> (#[trigger] schema.schema_field_views[i]).name
            == entry.1.fields[i].0
}

/// A version of the current schema that an entry stands for is one of the entry.
proof fn lemma_version_of_entry(
    schema: PreviousSchemaModel,
    file: Seq<(Seq<char>, SchemaDefinitionModel)>,
    index: int,
)
    requires
        0 <= index < file.len(),
        is_version_of(schema, current_schemas(file)[index]),
    ensures
        is_version_of_entry(schema, file[index]),
{
    let current = current_schemas(file)[index];
    let names = current_field_names(current);
    assert(names_of(schema.schema_field_views).len() == names.len());
    assert forall|i: int| 0 <= i < file[index].1.fields.len() implies (
    #[trigger] schema.schema_field_views[i]).name == file[index].1.fields[i].0 by {
        assert(names_of(schema.schema_field_views)[i] == names[i]);
    }
}

/// A written file is read: where the file is valid, its relations are plannable, all its field names
/// are valid, and the first plan ever was executed to its end, schemas can be read from the documents
/// that hold what the operations wrote. They are exactly those of the file, with their names,
/// descriptions and, in their order, field names.
pub proof fn law_written_file_is_read(
    file: Seq<(Seq<char>, SchemaDefinitionModel)>,
    plan: Seq<SchemaDiffModel>,
    replies: Seq<Seq<char>>,
    documents: Documents,
    ids: Seq<Seq<char>>,
)
    requires
        is_valid_file(file),
        forall|i: int|
            0 <= i < current_schemas(file).len() ==> are_valid_field_names(
                current_field_names(#[trigger] current_schemas(file)[i]),
            ),
        links_are_known(current_schemas(file)),
        !has_relation_by_id(current_schemas(file)),
        !has_cycle(current_schemas(file)),
        is_plan(Map::empty(), current_schemas(file), plan),
        run_plans(plan, replies).view_ids is Some,
        are_entry_hashes(replies),
        hold_written(documents, run_plans(plan, replies).operations, replies),
        are_written_definitions(ids, run_plans(plan, replies).operations, replies),
    ensures
        read_schemas(documents, ids) is Some,
        forall|name: Seq<char>| #[trigger]
            (read_schemas(documents, ids)->0).contains_key(name) <==> is_schema_name(
                current_schemas(file),
                name,
            ),
        forall|i: int|
            0 <= i < current_schemas(file).len() ==> is_version_of(
                (read_schemas(documents, ids)->0)[current_schemas(file)[i].name],
                #[trigger] current_schemas(file)[i],
            ),
        forall|i: int|
            0 <= i < file.len() ==> (read_schemas(documents, ids)->0).contains_key(file[i].0)
                && is_version_of_entry(
                (read_schemas(documents, ids)->0)[file[i].0],
                #[trigger] file[i],
            ),
{
    let previous = Map::<Seq<char>, PreviousSchemaModel>::empty();
    let current = current_schemas(file);
    lemma_valid_file(file);
    assert forall|i: int| 0 <= i < plan.len() implies is_new(#[trigger] plan[i]) by {
        lemma_first_diff_is_new(current, plan[i].name, plan[i]);
    }
    assert forall|part: SchemaDiffModel| #[trigger] is_part_of_plan(
        plan,
        part,
    ) implies is_valid_schema(part.name, part.description, field_names(part.fields))
        && is_schema_name(current, part.name) by {
        lemma_valid_part(file, previous, plan, part);
        lemma_part_of_plan_is_diff(previous, current, plan, part);
        lemma_names_of_diff(previous, current, part);
        lemma_find_schema(current, part.name);
        let n = choose|n: int|
            0 <= n < current.len() && #[trigger] current[n] == find_schema(current, part.name)->0;
        assert(are_valid_field_names(current_field_names(current[n])));
    }
    assert forall|left: SchemaDiffModel, right: SchemaDiffModel|
        #![trigger is_part_of_plan(plan, left), is_part_of_plan(plan, right)]
        is_part_of_plan(plan, left) && is_part_of_plan(plan, right) && left.name
            == right.name implies left == right by {
        lemma_part_of_plan_is_diff(previous, current, plan, left);
        lemma_part_of_plan_is_diff(previous, current, plan, right);
        law_schema_diff_is_unique(previous, current, left.name, left, right);
    }
    law_commits_give_back_schemas(plan, replies, documents, ids);
    let schemas = read_schemas(documents, ids)->0;
    assert forall|i: int| 0 <= i < current.len() implies is_planned(plan, (#[trigger] current[i]).name)
        && is_version_of(schemas[current[i].name], current[i]) by {
        law_no_schema_is_lost(previous, current, plan, i);
        let diff = choose|diff: SchemaDiffModel| #[trigger]
            is_part_of_plan(plan, diff) && diff.name == current[i].name;
        lemma_part_of_plan_is_diff(previous, current, plan, diff);
        lemma_names_of_diff(previous, current, diff);
        lemma_find_only(current, i);
        assert(is_schema_of(schemas[diff.name], diff));
    }
    assert forall|name: Seq<char>| #[trigger] schemas.contains_key(name) <==> is_schema_name(
        current,
        name,
    ) by {
        if schemas.contains_key(name) {
            let diff = choose|diff: SchemaDiffModel| #[trigger]
                is_part_of_plan(plan, diff) && diff.name == name;
            assert(is_part_of_plan(plan, diff));
        }
        if is_schema_name(current, name) {
            let i = choose|i: int| 0 <= i < current.len() && (#[trigger] current[i]).name == name;
            assert(is_planned(plan, current[i].name));
        }
    }
    assert forall|i: int| 0 <= i < file.len() implies schemas.contains_key(file[i].0)
        && is_version_of_entry(schemas[file[i].0], #[trigger] file[i]) by {
        assert(current[i].name == file[i].0);
        assert(is_schema_name(current, current[i].name));
        lemma_version_of_entry(schemas[file[i].0], file, i);
    }
}

/// None of the fields links to a schema.
spec fn are_fields_unrelated(diffs: Seq<FieldDiffModel>) -> bool {
    forall|i: int| 0 <= i < diffs.len() ==> (#[trigger] diffs[i]).field_type is Field
}

proof fn lemma_unrelated_diff(
    previous: Map<Seq<char>, PreviousSchemaModel>,
    current: Seq<CurrentSchemaModel>,
    diff: SchemaDiffModel,
)
    requires
        forall|from: Seq<char>, to: Seq<char>| !#[trigger] relates(current, from, to),
        is_schema_diff(previous, current, diff.name, diff),
    ensures
        are_fields_unrelated(diff.fields),
{
    let schema = find_schema(current, diff.name)->0;
    lemma_find_schema(current, diff.name);
    let n = choose|n: int|
        0 <= n < current.len() && #[trigger] current[n] == schema && schema.name == diff.name;
    assert forall|i: int| 0 <= i < diff.fields.len() implies (
    #[trigger] diff.fields[i]).field_type is Field by {
        assert(is_field_diff(previous, current, diff.name, schema.fields[i], diff.fields[i]));
        if diff.fields[i].field_type is Relation {
            let linked = linked_name(schema.fields[i].1)->0;
            assert(is_link(current, n, i, diff.name, linked));
            assert(relates(current, diff.name, linked));
        }
    }
}

/// A schema is assembled from documents exactly where it is read from them, and is then the one that
/// is read: its definition is the one of the view id, and each field is the definition that it pins.
pub proof fn law_assembled_schema_is_read(
    documents: Documents,
    id: Seq<char>,
    pending: PendingSchema,
)
    requires
        documents.contains_key(id),
        schema_definition(id, documents[id]) == Some(pending.view_model()),
        pending.field_models().len() == pending.view_model().fields.len(),
        forall|i: int|
            0 <= i < pending.field_models().len() ==> read_field(
                documents,
                pending.view_model().fields[i],
            ) == Some(#[trigger] pending.field_models()[i]),
    ensures
        read_schema(documents, id) == if can_be_assembled(
            pending.view_model(),
            pending.field_models(),
        ) {
            Some(
                PreviousSchemaModel {
                    schema: SchemaIdModel::Application(
                        pending.view_model().name,
                        pending.view_model().view_id,
                    ),
                    schema_view: pending.view_model(),
                    schema_field_views: pending.field_models(),
                },
            )
        } else {
            None
        },
{
    lemma_read_each_field(documents, pending.view_model().fields, pending.field_models());
}

proof fn lemma_read_each_field(
    documents: Documents,
    ids: Seq<Seq<char>>,
    fields: Seq<SchemaFieldViewModel>,
)
    requires
        ids.len() == fields.len(),
        forall|i: int|
            0 <= i < fields.len() ==> read_field(documents, ids[i]) == Some(#[trigger] fields[i]),
    ensures
        read_fields(documents, ids) == Some(fields),
    decreases ids.len(),
{
    if ids.len() == 0 {
        assert(fields =~= Seq::empty());
    } else {
        let front = fields.drop_last();
        assert forall|i: int| 0 <= i < front.len() implies read_field(
            documents,
            ids.drop_last()[i],
        ) == Some(#[trigger] front[i]) by {
            assert(front[i] == fields[i]);
        }
        lemma_read_each_field(documents, ids.drop_last(), front);
        assert(read_field(documents, ids[ids.len() - 1]) == Some(fields[ids.len() - 1]));
        assert(fields =~= front.push(fields[fields.len() - 1]));
    }
}

/// The documents hold the definition of a field under this view id, with the name of the field.
pub open spec fn is_field_defined(
    documents: Documents,
    id: Seq<char>,
    name: Seq<char>,
) -> bool {
    exists|view: SchemaFieldViewModel|
        documents.contains_key(id) && documents[id] == #[trigger] field_document(view) && view.id
            == id && view.name == name
}

/// The documents hold the definition `view` of a schema, with its name, its description and, in
/// their order, the definitions of its fields.
pub open spec fn is_defined_by(
    documents: Documents,
    schema: CurrentSchemaModel,
    view: SchemaViewModel,
) -> bool {
    &&& documents.contains_key(view.view_id)
    &&& documents[view.view_id] == schema_document(view)
    &&& view.name == schema.name
    &&& view.description == schema.description
    &&& view.fields.len() == schema.fields.len()
    &&& forall|i: int|
        0 <= i < view.fields.len() ==> is_field_defined(
            documents,
            #[trigger] view.fields[i],
            schema.fields[i].0,
        )
}

/// Data is created for all the defined schemas: where the plan was executed to its end and the
/// documents hold what was there before and what the operations wrote, they hold the definition of
/// every current schema.
pub proof fn law_every_schema_is_defined(
    previous: Map<Seq<char>, PreviousSchemaModel>,
    current: Seq<CurrentSchemaModel>,
    plan: Seq<SchemaDiffModel>,
    replies: Seq<Seq<char>>,
    documents: Documents,
    index: int,
)
    requires
        is_keyed_by_name(previous),
        names_are_distinct(current),
        links_are_known(current),
        !has_relation_by_id(current),
        !has_cycle(current),
        is_plan(previous, current, plan),
        run_plans(plan, replies).view_ids is Some,
        hold_previous_plans(documents, plan),
        hold_written(documents, run_plans(plan, replies).operations, replies),
        0 <= index < current.len(),
    ensures
        exists|view: SchemaViewModel| #[trigger] is_defined_by(documents, current[index], view),
{
    let schema = current[index];
    law_no_schema_is_lost(previous, current, plan, index);
    let diff = choose|diff: SchemaDiffModel| #[trigger]
        is_part_of_plan(plan, diff) && diff.name == schema.name;
    let part = lemma_settled_part_of_plans(plan, replies, diff);
    let settled = settled_plans(plan, replies);
    let n = choose|n: int| 0 <= n < settled.len() && is_part(#[trigger] settled[n], part);
    lemma_settled_plans(plan, replies);
    lemma_settled_plans_are_current(plan, replies, n);
    lemma_plan_documents(documents, plan, replies);
    assert(hold_previous_schema(documents, settled[n]));
    lemma_part_is_current(documents, settled[n], part);
    lemma_part_of_plan_is_diff(previous, current, plan, diff);
    lemma_diff_has_own_names(previous, current, diff);
    lemma_settled_has_own_names(diff, part);
    lemma_find_only(current, index);
    lemma_names_of_diff(previous, current, diff);
    lemma_is_defined(documents, schema, part);
}

/// The names of the fields of a current schema.
pub open spec fn current_field_names(schema: CurrentSchemaModel) -> Seq<Seq<char>> {
    schema.fields.map_values(|field: (Seq<char>, SchemaFieldModel)| field.0)
}

/// The names of the fields of a diff are those of the current schema.
proof fn lemma_names_of_diff(
    previous: Map<Seq<char>, PreviousSchemaModel>,
    current: Seq<CurrentSchemaModel>,
    diff: SchemaDiffModel,
)
    requires
        is_schema_diff(previous, current, diff.name, diff),
    ensures
        field_names(diff.fields) == current_field_names(find_schema(current, diff.name)->0),
{
    let schema = find_schema(current, diff.name)->0;
    let names = current_field_names(schema);
    assert forall|i: int| 0 <= i < diff.fields.len() implies field_names(diff.fields)[i]
        == names[i] by {
        assert(is_field_diff(previous, current, diff.name, schema.fields[i], diff.fields[i]));
    }
    assert(field_names(diff.fields) =~= names);
}

/// Documents that hold current versions hold the definition of the schema.
proof fn lemma_is_defined(documents: Documents, schema: CurrentSchemaModel, part: SchemaDiffModel)
    requires
        is_schema_current(part),
        hold_previous_schema(documents, part),
        has_own_names(part),
        part.name == schema.name,
        part.description == schema.description,
        field_names(part.fields) == current_field_names(schema),
    ensures
        is_defined_by(documents, schema, part.previous->0),
{
    let view = part.previous->0;
    let names = current_field_names(schema);
    assert(view.fields == previous_field_ids(part.fields));
    assert(field_names(part.fields).len() == names.len());
    assert(view.fields.len() == schema.fields.len());
    assert(view.name == schema.name);
    assert forall|i: int| 0 <= i < view.fields.len() implies is_field_defined(
        documents,
        #[trigger] view.fields[i],
        schema.fields[i].0,
    ) by {
        lemma_each_field_is_current(part.fields, i);
        assert(hold_previous_field(documents, part.fields[i]));
        assert(field_names(part.fields)[i] == names[i]);
        let field = part.fields[i].previous->0;
        assert(view.fields[i] == field.id);
        assert(documents[view.fields[i]] == field_document(field));
        assert(field.name == part.fields[i].name);
        assert(schema.fields[i].0 == field.name);
    }
}

/// The replies that recorded commits stand for are the hashes of their entries.
pub proof fn law_recorded_replies_are_entry_hashes(
    commits: Seq<CommitModel>,
    operations: Seq<OperationModel>,
)
    requires
        record(commits, operations),
    ensures
        are_entry_hashes(replies_of(commits)),
{
    assert forall|i: int| 0 <= i < commits.len() implies is_entry_hash(
        #[trigger] replies_of(commits)[i],
    ) by {
        assert(records(commits[i], operations[i]));
    }
}

} // verus!
